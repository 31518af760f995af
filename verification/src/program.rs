//! The program store: a sparse two-dimensional character canvas addressed by
//! signed integer coordinates. It holds the source text of a program and any
//! cells the running program writes into itself.
//!
//! Axis orientation: `x` grows to the right and `y` grows downward. Line `y`
//! of the source text occupies the cells `(0, y)`, `(1, y)`, ... in order,
//! so the direction "down" corresponds to a `y`-delta of `+1`.

use vstd::prelude::*;

verus! {

/// A cell address on the program grid: a pair of signed coordinates.
#[derive(Debug, Copy, Clone, PartialEq, Eq, Hash, PartialOrd, Ord, Structural)]
pub struct Position {
    pub x: i64,
    pub y: i64,
}

impl View for Position {
    type V = (int, int);

    open spec fn view(&self) -> (int, int) {
        (self.x as int, self.y as int)
    }
}

/// The mapping that a sequence of (address, character) entries denotes:
/// entries are folded left to right, later entries overwriting earlier ones.
pub open spec fn grid_entries(s: Seq<(Position, char)>) -> Map<(int, int), char>
    decreases s.len(),
{
    if s.len() == 0 {
        Map::empty()
    } else {
        grid_entries(s.drop_last()).insert(s.last().0@, s.last().1)
    }
}

/// What reading grid `g` at cell `p` yields: the stored character, or a
/// space wherever nothing is stored. Reading is a total function.
pub open spec fn read_cell(g: Map<(int, int), char>, p: (int, int)) -> char {
    if g.dom().contains(p) {
        g[p]
    } else {
        ' '
    }
}

spec fn unique_positions(s: Seq<(Position, char)>) -> bool {
    forall|i: int, j: int| 0 <= i < j < s.len() ==> s[i].0@ != s[j].0@
}

/// The grid that the source text `s` denotes from index `i` on, when the
/// next unread character would land at column `x` of row `y`, folded into
/// the cells already written in `g`: a newline moves to column 0 of the next
/// row, a carriage return that begins a carriage-return--line-feed pair is
/// part of the line break and stores nothing, and any other character is
/// written and moves one column right.
pub open spec fn grid_from_text(
    s: Seq<char>,
    i: int,
    x: int,
    y: int,
    g: Map<(int, int), char>,
) -> Map<(int, int), char>
    decreases s.len() - i,
{
    if i < 0 || i >= s.len() {
        g
    } else if s[i] == '\n' {
        grid_from_text(s, i + 1, 0, y + 1, g)
    } else if s[i] == '\r' && i + 1 < s.len() && s[i + 1] == '\n' {
        grid_from_text(s, i + 1, x, y, g)
    } else {
        grid_from_text(s, i + 1, x + 1, y, g.insert((x, y), s[i]))
    }
}

/// The grid denoted by a whole source text: lines are split on newline, and
/// the character at column `x` of line `y` lands at cell `(x, y)`.
pub open spec fn text_grid(s: Seq<char>) -> Map<(int, int), char> {
    grid_from_text(s, 0, 0, 0, Map::empty())
}

/// The index of the first newline at or after `i`, or the text length when
/// no newline follows.
pub open spec fn next_newline(s: Seq<char>, i: int) -> int
    decreases s.len() - i,
{
    if i < 0 || i >= s.len() {
        s.len() as int
    } else if s[i] == '\n' {
        i
    } else {
        next_newline(s, i + 1)
    }
}

/// The index where line `y` of the text starts. A line that does not exist
/// (the text ran out of newlines before it) starts past the end, at
/// `s.len() + 1`.
pub open spec fn line_start(s: Seq<char>, y: int) -> int
    decreases y,
{
    if y <= 0 {
        0
    } else {
        let prev = line_start(s, y - 1);
        if next_newline(s, prev) < s.len() {
            next_newline(s, prev) + 1
        } else {
            s.len() as int + 1
        }
    }
}

/// Where the content of the line starting at `st` ends: at the next
/// newline, or just before it when a carriage return immediately precedes it
/// (the pair is one line break), or at the end of the text.
pub open spec fn line_content_end(s: Seq<char>, st: int) -> int {
    let e = next_newline(s, st);
    if e < s.len() && e > st && s[e - 1] == '\r' {
        e - 1
    } else {
        e
    }
}

/// The number of characters on line `y`: what lies between its start and its
/// content end.
pub open spec fn line_len(s: Seq<char>, y: int) -> int {
    line_content_end(s, line_start(s, y)) - line_start(s, y)
}

/// Lexicographic order on cell addresses, by `x` and then by `y`.
pub open spec fn lex_le(a: (int, int), b: (int, int)) -> bool {
    a.0 < b.0 || (a.0 == b.0 && a.1 <= b.1)
}

/// Two grids agree at cell `p`: both store it or neither does, and a stored
/// character is the same.
spec fn same_cell(g1: Map<(int, int), char>, g2: Map<(int, int), char>, p: (int, int)) -> bool {
    &&& g1.dom().contains(p) <==> g2.dom().contains(p)
    &&& g1.dom().contains(p) ==> g1[p] == g2[p]
}

/// Text processing only writes at or after the current column of the current
/// row, and never at a negative column: cells before that point stay as the
/// fold found them.
proof fn lemma_grid_text_untouched(
    s: Seq<char>,
    i: int,
    cx: int,
    cy: int,
    g: Map<(int, int), char>,
    p: (int, int),
)
    requires
        0 <= cx,
        p.1 < cy || (p.1 == cy && p.0 < cx) || p.0 < 0,
    ensures
        same_cell(grid_from_text(s, i, cx, cy, g), g, p),
    decreases s.len() - i,
{
    if 0 <= i < s.len() {
        if s[i] == '\n' {
            lemma_grid_text_untouched(s, i + 1, 0, cy + 1, g, p);
        } else if s[i] == '\r' && i + 1 < s.len() && s[i + 1] == '\n' {
            lemma_grid_text_untouched(s, i + 1, cx, cy, g, p);
        } else {
            lemma_grid_text_untouched(s, i + 1, cx + 1, cy, g.insert((cx, cy), s[i]), p);
        }
    }
}

/// The value the fold leaves at one cell depends on the starting grid only
/// through that same cell.
proof fn lemma_grid_text_frame(
    s: Seq<char>,
    i: int,
    cx: int,
    cy: int,
    g1: Map<(int, int), char>,
    g2: Map<(int, int), char>,
    p: (int, int),
)
    requires
        same_cell(g1, g2, p),
    ensures
        same_cell(grid_from_text(s, i, cx, cy, g1), grid_from_text(s, i, cx, cy, g2), p),
    decreases s.len() - i,
{
    if 0 <= i < s.len() {
        if s[i] == '\n' {
            lemma_grid_text_frame(s, i + 1, 0, cy + 1, g1, g2, p);
        } else if s[i] == '\r' && i + 1 < s.len() && s[i + 1] == '\n' {
            lemma_grid_text_frame(s, i + 1, cx, cy, g1, g2, p);
        } else {
            lemma_grid_text_frame(
                s,
                i + 1,
                cx + 1,
                cy,
                g1.insert((cx, cy), s[i]),
                g2.insert((cx, cy), s[i]),
                p,
            );
        }
    }
}

/// On the current row, the fold writes exactly the characters up to the next
/// newline, at consecutive columns from the current one on.
proof fn lemma_grid_text_row(
    s: Seq<char>,
    i: int,
    cx: int,
    cy: int,
    g: Map<(int, int), char>,
    x: int,
)
    requires
        0 <= i <= s.len(),
        0 <= cx,
        x >= cx,
    ensures
        ({
            let m = grid_from_text(s, i, cx, cy, g);
            let ce = line_content_end(s, i);
            if x - cx < ce - i {
                m.dom().contains((x, cy)) && m[(x, cy)] == s[i + x - cx]
            } else {
                same_cell(m, g, (x, cy))
            }
        }),
    decreases s.len() - i,
{
    if i < s.len() {
        if s[i] == '\n' {
            lemma_grid_text_untouched(s, i + 1, 0, cy + 1, g, (x, cy));
        } else if s[i] == '\r' && i + 1 < s.len() && s[i + 1] == '\n' {
            assert(next_newline(s, i + 1) == i + 1);
            assert(next_newline(s, i) == i + 1);
            assert(line_content_end(s, i) == i);
            lemma_grid_text_row(s, i + 1, cx, cy, g, x);
        } else {
            let g2 = g.insert((cx, cy), s[i]);
            lemma_next_newline_bounds(s, i + 1);
            assert(line_content_end(s, i) == line_content_end(s, i + 1)) by {
                let e = next_newline(s, i);
                assert(e == next_newline(s, i + 1));
                if e < s.len() && e == i + 1 {
                    if s[i + 1] != '\n' {
                        lemma_next_newline_bounds(s, i + 2);
                        assert(next_newline(s, i + 1) == next_newline(s, i + 2));
                        assert(false);
                    }
                    assert(s[i] != '\r');
                }
            }
            if x == cx {
                lemma_grid_text_untouched(s, i + 1, cx + 1, cy, g2, (x, cy));
            } else {
                lemma_grid_text_row(s, i + 1, cx + 1, cy, g2, x);
            }
        }
    }
}

/// For rows below the current one, the fold acts as if it had started just
/// past the next newline, at column 0 of the next row; with no newline left
/// it never reaches them at all.
proof fn lemma_grid_text_next_row(
    s: Seq<char>,
    i: int,
    cx: int,
    cy: int,
    g: Map<(int, int), char>,
    p: (int, int),
)
    requires
        0 <= i <= s.len(),
        p.1 > cy,
    ensures
        ({
            let m = grid_from_text(s, i, cx, cy, g);
            let e = next_newline(s, i);
            if e < s.len() {
                same_cell(m, grid_from_text(s, e + 1, 0, cy + 1, g), p)
            } else {
                same_cell(m, g, p)
            }
        }),
    decreases s.len() - i,
{
    if i < s.len() {
        if s[i] == '\r' && i + 1 < s.len() && s[i + 1] == '\n' {
            lemma_grid_text_next_row(s, i + 1, cx, cy, g, p);
        } else if s[i] != '\n' {
            let g2 = g.insert((cx, cy), s[i]);
            let e = next_newline(s, i);
            lemma_grid_text_next_row(s, i + 1, cx + 1, cy, g2, p);
            if e < s.len() {
                lemma_grid_text_frame(s, e + 1, 0, cy + 1, g2, g, p);
            }
        }
    }
}

/// Where the line after the one starting at `i` starts: just past the next
/// newline, or past the end of the text when no newline is left.
spec fn next_line_start(s: Seq<char>, i: int) -> int {
    if next_newline(s, i) < s.len() {
        next_newline(s, i) + 1
    } else {
        s.len() as int + 1
    }
}

/// The start index of the `k`-th line at or after position `i`.
spec fn rel_line_start(s: Seq<char>, i: int, k: int) -> int
    decreases k,
{
    if k <= 0 {
        i
    } else {
        next_line_start(s, rel_line_start(s, i, k - 1))
    }
}

/// The next newline at or after a nonnegative index lies between that index
/// and the end of the text.
proof fn lemma_next_newline_bounds(s: Seq<char>, i: int)
    requires
        0 <= i <= s.len(),
    ensures
        i <= next_newline(s, i) <= s.len(),
    decreases s.len() - i,
{
    if i < s.len() && s[i] != '\n' {
        lemma_next_newline_bounds(s, i + 1);
    }
}

proof fn lemma_rel_line_start_step(s: Seq<char>, i: int, k: int)
    requires
        k >= 1,
    ensures
        rel_line_start(s, i, k) == rel_line_start(s, next_line_start(s, i), k - 1),
    decreases k,
{
    if k == 1 {
        assert(rel_line_start(s, i, 0) == i);
        assert(rel_line_start(s, next_line_start(s, i), 0) == next_line_start(s, i));
    } else {
        lemma_rel_line_start_step(s, i, k - 1);
        assert(rel_line_start(s, i, k) == next_line_start(s, rel_line_start(s, i, k - 1)));
        assert(rel_line_start(s, next_line_start(s, i), k - 1) == next_line_start(
            s,
            rel_line_start(s, next_line_start(s, i), k - 2),
        ));
    }
}

/// Once a line starts past the end of the text, so do all later ones.
proof fn lemma_rel_line_start_past_end(s: Seq<char>, k: int)
    requires
        k >= 0,
    ensures
        rel_line_start(s, s.len() as int + 1, k) == s.len() as int + 1,
    decreases k,
{
    if k > 0 {
        lemma_rel_line_start_past_end(s, k - 1);
    }
}

proof fn lemma_line_start_is_rel(s: Seq<char>, y: int)
    requires
        y >= 0,
    ensures
        line_start(s, y) == rel_line_start(s, 0, y),
    decreases y,
{
    if y > 0 {
        lemma_line_start_is_rel(s, y - 1);
    }
}

/// The cell the fold leaves at `(x, y)` for any row at or below the current
/// one: the matching character of the matching line, or the starting grid's
/// cell where the text does not reach `(x, y)`.
proof fn lemma_grid_text_lines(
    s: Seq<char>,
    i: int,
    cy: int,
    g: Map<(int, int), char>,
    x: int,
    y: int,
)
    requires
        0 <= i <= s.len(),
        0 <= x,
        cy <= y,
    ensures
        ({
            let m = grid_from_text(s, i, 0, cy, g);
            let st = rel_line_start(s, i, y - cy);
            let ce = line_content_end(s, st);
            if st <= s.len() && x < ce - st {
                m.dom().contains((x, y)) && m[(x, y)] == s[st + x]
            } else {
                same_cell(m, g, (x, y))
            }
        }),
    decreases y - cy,
{
    if y == cy {
        lemma_grid_text_row(s, i, 0, cy, g, x);
    } else {
        let e0 = next_newline(s, i);
        lemma_next_newline_bounds(s, i);
        lemma_grid_text_next_row(s, i, 0, cy, g, (x, y));
        lemma_rel_line_start_step(s, i, y - cy);
        if e0 < s.len() {
            lemma_grid_text_lines(s, e0 + 1, cy + 1, g, x, y);
        } else {
            lemma_rel_line_start_past_end(s, y - cy - 1);
        }
    }
}

/// Round trip between text and grid: the grid built from a source text holds
/// exactly the text's characters. Cell `(x, y)` is occupied if and only if
/// line `y` of the text exists and its content (the characters before its
/// line break, which is a newline or a carriage-return--line-feed pair) is
/// longer than `x` characters, and it then holds the character at column `x`
/// of that line; every other cell reads as a space.
pub proof fn lemma_text_round_trip(s: Seq<char>, x: int, y: int)
    requires
        0 <= x,
        0 <= y,
    ensures
        ({
            let st = line_start(s, y);
            &&& (st <= s.len() && x < line_len(s, y)) ==> text_grid(s).dom().contains((x, y))
                && text_grid(s)[(x, y)] == s[st + x]
            &&& !(st <= s.len() && x < line_len(s, y)) ==> !text_grid(s).dom().contains((x, y))
                && read_cell(text_grid(s), (x, y)) == ' '
        }),
{
    lemma_line_start_is_rel(s, y);
    lemma_grid_text_lines(s, 0, 0, Map::empty(), x, y);
}

/// The grid built from a source text never occupies a cell with a negative
/// coordinate.
pub proof fn lemma_text_grid_nonnegative(s: Seq<char>, p: (int, int))
    requires
        p.0 < 0 || p.1 < 0,
    ensures
        !text_grid(s).dom().contains(p),
        read_cell(text_grid(s), p) == ' ',
{
    lemma_grid_text_untouched(s, 0, 0, 0, Map::empty(), p);
}

/// A sparse grid of characters, serving simultaneously as source code and as
/// self-modifiable memory. Its mathematical value is a finite map from
/// coordinates to characters; every absent coordinate reads as a space.
pub struct Program {
    cells: Vec<(Position, char)>,
}

proof fn lemma_grid_entries_lookup(s: Seq<(Position, char)>, p: (int, int))
    requires
        unique_positions(s),
    ensures
        grid_entries(s).dom().contains(p) <==> exists|k: int| 0 <= k < s.len() && s[k].0@ == p,
        forall|k: int| 0 <= k < s.len() && s[k].0@ == p ==> grid_entries(s)[p] == s[k].1,
    decreases s.len(),
{
    if s.len() > 0 {
        let t = s.drop_last();
        assert(unique_positions(t)) by {
            assert(forall|i: int, j: int|
                0 <= i < j < t.len() ==> s[i].0@ != s[j].0@);
        }
        lemma_grid_entries_lookup(t, p);
        if s.last().0@ == p {
            assert(s[s.len() - 1].0@ == p);
        } else {
            assert(forall|k: int| 0 <= k < t.len() ==> t[k] == s[k]);
        }
    }
}

impl Program {
    /// The mathematical value of the store: the finite map its cells denote.
    pub closed spec fn grid(&self) -> Map<(int, int), char> {
        grid_entries(self.cells@)
    }

    /// Internal well-formedness: no coordinate is stored twice. Every
    /// constructor establishes it and every method preserves it.
    pub closed spec fn wf(&self) -> bool {
        unique_positions(self.cells@)
    }

    /// An empty grid: every cell reads as a space.
    pub fn new() -> (p: Program)
        ensures
            p.grid() == Map::<(int, int), char>::empty(),
            p.wf(),
    {
        Program { cells: Vec::new() }
    }

    /// Total read: the character stored at `pos`, or a space when the cell
    /// was never written.
    pub fn get(&self, pos: &Position) -> (c: char)
        requires
            self.wf(),
        ensures
            c == read_cell(self.grid(), pos@),
    {
        proof {
            lemma_grid_entries_lookup(self.cells@, pos@);
        }
        let n = self.cells.len();
        let mut i: usize = 0;
        while i < n
            invariant
                n == self.cells@.len(),
                i <= n,
                forall|k: int| 0 <= k < i ==> self.cells@[k].0@ != pos@,
                grid_entries(self.cells@).dom().contains(pos@) <==> exists|k: int|
                    0 <= k < self.cells@.len() && self.cells@[k].0@ == pos@,
                forall|k: int|
                    0 <= k < self.cells@.len() && self.cells@[k].0@ == pos@
                        ==> grid_entries(self.cells@)[pos@] == self.cells@[k].1,
            decreases n - i,
        {
            let (q, c) = self.cells[i];
            if q.x == pos.x && q.y == pos.y {
                assert(self.cells@[i as int].0@ == pos@);
                return c;
            }
            i += 1;
        }
        ' '
    }

    /// Unconditional write: stores `c` at `pos`, overwriting any earlier
    /// character there. Writing a space is a write like any other; it keeps
    /// the `get` contract intact.
    pub fn set(&mut self, pos: &Position, c: char)
        requires
            old(self).wf(),
        ensures
            final(self).grid() == old(self).grid().insert(pos@, c),
            final(self).wf(),
    {
        let ghost s0 = self.cells@;
        let n = self.cells.len();
        let mut i: usize = 0;
        while i < n
            invariant
                n == self.cells@.len(),
                i <= n,
                self.cells@ == s0,
                old(self).cells@ == s0,
                unique_positions(s0),
                forall|k: int| 0 <= k < i ==> self.cells@[k].0@ != pos@,
            decreases n - i,
        {
            let q = self.cells[i].0;
            if q.x == pos.x && q.y == pos.y {
                assert(self.cells@[i as int].0@ == pos@);
                self.cells[i] = (*pos, c);
                proof {
                    let s1 = self.cells@;
                    assert(s1 == s0.update(i as int, (*pos, c)));
                    assert(forall|k: int| 0 <= k < s1.len() ==> s1[k].0@ == s0[k].0@);
                    assert(unique_positions(s1));
                    let m1 = grid_entries(s1);
                    let m0i = grid_entries(s0).insert(pos@, c);
                    assert forall|q2: (int, int)|
                        m1.dom().contains(q2) <==> m0i.dom().contains(q2) by {
                        lemma_grid_entries_lookup(s0, q2);
                        lemma_grid_entries_lookup(s1, q2);
                        if q2 == pos@ {
                            assert(s1[i as int].0@ == q2);
                        }
                    }
                    assert forall|q2: (int, int)| m1.dom().contains(q2) implies m1[q2]
                        == m0i[q2] by {
                        lemma_grid_entries_lookup(s0, q2);
                        lemma_grid_entries_lookup(s1, q2);
                        if q2 == pos@ {
                            assert(s1[i as int].0@ == q2);
                            assert(m1[q2] == c);
                        } else {
                            let k = choose|k: int|
                                0 <= k < s1.len() && s1[k].0@ == q2;
                            assert(k != i);
                            assert(s0[k] == s1[k]);
                        }
                    }
                    assert(m1 =~= m0i);
                }
                return ;
            }
            i += 1;
        }
        self.cells.push((*pos, c));
        proof {
            assert(self.cells@.drop_last() == s0);
        }
    }

    /// Builds the grid a source text denotes: the character at column `x` of
    /// line `y` is written at cell `(x, y)`, rows growing downward. A line
    /// break is a newline or a carriage-return--line-feed pair; the carriage
    /// return of such a pair stores no cell.
    ///
    /// The length bound is a machine limit: a text long enough to violate it
    /// cannot exist in memory.
    pub fn from_text(text: &str) -> (p: Program)
        requires
            text@.len() <= i64::MAX,
        ensures
            p.grid() == text_grid(text@),
            p.wf(),
    {
        let n = text.unicode_len();
        let mut p = Program::new();
        let mut x: i64 = 0;
        let mut y: i64 = 0;
        let mut i: usize = 0;
        while i < n
            invariant
                n == text@.len(),
                n <= i64::MAX,
                i <= n,
                0 <= x <= i,
                0 <= y <= i,
                p.wf(),
                text_grid(text@) == grid_from_text(text@, i as int, x as int, y as int, p.grid()),
            decreases n - i,
        {
            let c = text.get_char(i);
            if c == '\n' {
                x = 0;
                y = y + 1;
            } else if !(c == '\r' && i + 1 < n && text.get_char(i + 1) == '\n') {
                p.set(&Position { x, y }, c);
                x = x + 1;
            }
            i += 1;
        }
        p
    }

    /// The lexicographically minimal and maximal stored Position, or `None`
    /// for a grid that was never written.
    pub fn extent(&self) -> (r: Option<(Position, Position)>)
        requires
            self.wf(),
        ensures
            match r {
                None => self.grid() == Map::<(int, int), char>::empty(),
                Some((lo, hi)) => {
                    &&& self.grid().dom().contains(lo@)
                    &&& self.grid().dom().contains(hi@)
                    &&& forall|q: (int, int)|
                        self.grid().dom().contains(q) ==> lex_le(lo@, q) && lex_le(q, hi@)
                },
            },
    {
        let n = self.cells.len();
        if n == 0 {
            proof {
                assert(self.grid() =~= Map::<(int, int), char>::empty());
            }
            return None;
        }
        let mut lo = self.cells[0].0;
        let mut hi = self.cells[0].0;
        let mut i: usize = 1;
        while i < n
            invariant
                n == self.cells@.len(),
                1 <= i <= n,
                exists|k: int| 0 <= k < i && self.cells@[k].0 == lo,
                exists|k: int| 0 <= k < i && self.cells@[k].0 == hi,
                forall|k: int|
                    0 <= k < i ==> lex_le(lo@, self.cells@[k].0@) && lex_le(
                        self.cells@[k].0@,
                        hi@,
                    ),
            decreases n - i,
        {
            let q = self.cells[i].0;
            if q.x < lo.x || (q.x == lo.x && q.y < lo.y) {
                lo = q;
                proof {
                    assert(self.cells@[i as int].0 == lo);
                }
            }
            if q.x > hi.x || (q.x == hi.x && q.y > hi.y) {
                hi = q;
                proof {
                    assert(self.cells@[i as int].0 == hi);
                }
            }
            i += 1;
        }
        proof {
            lemma_grid_entries_lookup(self.cells@, lo@);
            lemma_grid_entries_lookup(self.cells@, hi@);
            assert forall|q2: (int, int)| self.grid().dom().contains(q2) implies lex_le(lo@, q2)
                && lex_le(q2, hi@) by {
                lemma_grid_entries_lookup(self.cells@, q2);
            }
        }
        Some((lo, hi))
    }

    /// A finite window into the grid: all cells of the axis-aligned
    /// rectangle between the two corners (both inclusive), in row-major
    /// order, each paired with the character `get` yields there. Cells that
    /// were never written appear as spaces, never omitted. The size bound is
    /// a machine limit on the length of the returned vector.
    pub fn view(&self, upper_left: &Position, lower_right: &Position) -> (r: Vec<
        (Position, char),
    >)
        requires
            self.wf(),
            upper_left@.0 <= lower_right@.0 && upper_left@.1 <= lower_right@.1 ==> (
            lower_right@.0 - upper_left@.0 + 1) * (lower_right@.1 - upper_left@.1 + 1)
                <= usize::MAX,
        ensures
            ({
                let w = lower_right@.0 - upper_left@.0 + 1;
                let h = lower_right@.1 - upper_left@.1 + 1;
                if w <= 0 || h <= 0 {
                    r@.len() == 0
                } else {
                    r@.len() == w * h && forall|k: int|
                        0 <= k < r@.len() ==> (#[trigger] r@[k]).0@ == (
                        upper_left@.0 + k % w,
                        upper_left@.1 + k / w,
                        ) && r@[k].1 == read_cell(self.grid(), r@[k].0@)
                }
            }),
    {
        let ghost w = lower_right@.0 - upper_left@.0 + 1;
        let ghost h = lower_right@.1 - upper_left@.1 + 1;
        let mut out: Vec<(Position, char)> = Vec::new();
        if upper_left.x > lower_right.x || upper_left.y > lower_right.y {
            return out;
        }
        let mut y = upper_left.y;
        loop
            invariant_except_break
                out@.len() == (y - upper_left.y) * w,
            invariant
                self.wf(),
                w == lower_right@.0 - upper_left@.0 + 1,
                h == lower_right@.1 - upper_left@.1 + 1,
                w >= 1 && h >= 1,
                w * h <= usize::MAX,
                upper_left.y <= y <= lower_right.y,
                forall|k: int|
                    0 <= k < out@.len() ==> (#[trigger] out@[k]).0@ == (
                    upper_left@.0 + k % w,
                    upper_left@.1 + k / w,
                    ) && out@[k].1 == read_cell(self.grid(), out@[k].0@),
            ensures
                out@.len() == w * h,
                forall|k: int|
                    0 <= k < out@.len() ==> (#[trigger] out@[k]).0@ == (
                    upper_left@.0 + k % w,
                    upper_left@.1 + k / w,
                    ) && out@[k].1 == read_cell(self.grid(), out@[k].0@),
            decreases lower_right@.1 - y,
        {
            let ghost row = y - upper_left@.1;
            let mut x = upper_left.x;
            loop
                invariant_except_break
                    out@.len() == row * w + (x - upper_left@.0),
                invariant
                    self.wf(),
                    w == lower_right@.0 - upper_left@.0 + 1,
                    h == lower_right@.1 - upper_left@.1 + 1,
                    w >= 1 && h >= 1,
                    w * h <= usize::MAX,
                    upper_left.y <= y <= lower_right.y,
                    row == y - upper_left@.1,
                    upper_left.x <= x <= lower_right.x,
                    forall|k: int|
                        0 <= k < out@.len() ==> (#[trigger] out@[k]).0@ == (
                        upper_left@.0 + k % w,
                        upper_left@.1 + k / w,
                        ) && out@[k].1 == read_cell(self.grid(), out@[k].0@),
                ensures
                    upper_left.y <= y <= lower_right.y,
                    row == y - upper_left@.1,
                    out@.len() == row * w + w,
                    forall|k: int|
                        0 <= k < out@.len() ==> (#[trigger] out@[k]).0@ == (
                        upper_left@.0 + k % w,
                        upper_left@.1 + k / w,
                        ) && out@[k].1 == read_cell(self.grid(), out@[k].0@),
                decreases lower_right@.0 - x,
            {
                proof {
                    assert(row * w + (x - upper_left@.0) < w * h && row * w >= 0) by (
                    nonlinear_arith)
                        requires
                            w >= 1,
                            h >= 1,
                            0 <= row <= h - 1,
                            0 <= x - upper_left@.0 <= w - 1,
                    ;
                }
                let p = Position { x, y };
                let c = self.get(&p);
                out.push((p, c));
                proof {
                    let k = out@.len() - 1;
                    vstd::arithmetic::div_mod::lemma_fundamental_div_mod_converse(
                        k,
                        w,
                        row,
                        x - upper_left@.0,
                    );
                    assert(out@[k].0@ == (upper_left@.0 + k % w, upper_left@.1 + k / w));
                }
                if x == lower_right.x {
                    break ;
                }
                x = x + 1;
            }
            if y == lower_right.y {
                proof {
                    assert(out@.len() == (h - 1) * w + w);
                    assert((h - 1) * w + w == w * h) by (nonlinear_arith);
                }
                break ;
            }
            proof {
                assert((row + 1) * w == row * w + w) by (nonlinear_arith);
            }
            y = y + 1;
        }
        out
    }

    /// A copy of the grid with the same mathematical value, for restarts and
    /// read-only snapshots.
    pub fn duplicate(&self) -> (r: Program)
        requires
            self.wf(),
        ensures
            r.grid() == self.grid(),
            r.wf(),
    {
        let n = self.cells.len();
        let mut cells: Vec<(Position, char)> = Vec::new();
        let mut i: usize = 0;
        while i < n
            invariant
                n == self.cells@.len(),
                i <= n,
                cells@ == self.cells@.subrange(0, i as int),
            decreases n - i,
        {
            let e = self.cells[i];
            cells.push(e);
            proof {
                assert(cells@ =~= self.cells@.subrange(0, i + 1));
            }
            i += 1;
        }
        proof {
            assert(cells@ =~= self.cells@);
        }
        Program { cells }
    }
}

} // verus!
