//! The legality of a single placement, and what it means for a board to
//! respect the rules.
use vstd::prelude::*;
use crate::board::{at, col_of, has_nbr, inside, line_cell, nbr, row_of, Board, Cell, SIDE};
use crate::constraints::{eq_rule, ne_rule, symmetric, Mask};
use crate::board::{is_complete, opposite};

verus! {

/// How many of the first `n` cells of a line hold `v`.
pub open spec fn count_prefix(b: Seq<Cell>, horiz: bool, l: int, v: Cell, n: int) -> int
    decreases n,
{
    if n <= 0 {
        0
    } else {
        count_prefix(b, horiz, l, v, n - 1) + if b[line_cell(horiz, l, n - 1)] == v {
            1int
        } else {
            0int
        }
    }
}

/// How many cells of a line hold `v`.
pub open spec fn count_line(b: Seq<Cell>, horiz: bool, l: int, v: Cell) -> int {
    count_prefix(b, horiz, l, v, 6)
}

/// Cells `p`, `p + 1` and `p + 2` of a line hold the same filled value.
pub open spec fn triple_at(b: Seq<Cell>, horiz: bool, l: int, p: int) -> bool {
    let x = b[line_cell(horiz, l, p)];
    &&& x != Cell::Blank
    &&& b[line_cell(horiz, l, p + 1)] == x
    &&& b[line_cell(horiz, l, p + 2)] == x
}

/// A line holds three consecutive equal filled values somewhere.
pub open spec fn has_triple(b: Seq<Cell>, horiz: bool, l: int) -> bool {
    exists|p: int| 0 <= p < 4 && #[trigger] triple_at(b, horiz, l, p)
}

/// The rules of mask byte `m` of cell `i` toward direction `d` allow `v`
/// at `i`: a filled neighbour must equal `v` under an equality rule and
/// differ from it under an inequality rule.
pub open spec fn link_ok(b: Seq<Cell>, i: int, m: u8, d: int, v: Cell) -> bool {
    has_nbr(i, d) && b[nbr(i, d)] != Cell::Blank ==> {
        &&& eq_rule(m, d) ==> b[nbr(i, d)] == v
        &&& ne_rule(m, d) ==> b[nbr(i, d)] != v
    }
}

/// Whether `v` may be placed at the empty cell `i`: neither its row nor its
/// column already holds three of `v`, neither would then hold three equal
/// values in a row, and every rule of the cell toward a filled neighbour
/// holds.
pub open spec fn placeable(b: Seq<Cell>, i: int, mask: Seq<u8>, v: Cell) -> bool {
    &&& count_line(b, true, row_of(i), v) < 3
    &&& count_line(b, false, col_of(i), v) < 3
    &&& !has_triple(b.update(i, v), true, row_of(i))
    &&& !has_triple(b.update(i, v), false, col_of(i))
    &&& forall|d: int| 0 <= d < 4 ==> #[trigger] link_ok(b, i, mask[i], d, v)
}

/// No line holds more than three of a symbol.
pub open spec fn at_most_three(b: Seq<Cell>) -> bool {
    forall|h: bool, l: int|
        0 <= l < 6 ==> #[trigger] count_line(b, h, l, Cell::Sun) <= 3 && count_line(b, h, l, Cell::Moon)
            <= 3
}

/// Every line holds exactly three Suns and three Moons.
pub open spec fn balanced(b: Seq<Cell>) -> bool {
    forall|h: bool, l: int|
        0 <= l < 6 ==> #[trigger] count_line(b, h, l, Cell::Sun) == 3 && count_line(b, h, l, Cell::Moon)
            == 3
}

/// No line holds three consecutive equal filled values.
pub open spec fn no_triples(b: Seq<Cell>) -> bool {
    forall|h: bool, l: int| 0 <= l < 6 ==> !#[trigger] has_triple(b, h, l)
}

/// Every rule of the mask holds between each filled cell and its filled
/// neighbours.
pub open spec fn links_hold(b: Seq<Cell>, mask: Seq<u8>) -> bool {
    forall|i: int, d: int|
        0 <= i < 36 && 0 <= d < 4 && b[i] != Cell::Blank ==> #[trigger] link_ok(b, i, mask[i], d, b[i])
}

/// A partly filled board that breaks no rule so far.
pub open spec fn consistent(b: Seq<Cell>, mask: Seq<u8>) -> bool {
    &&& b.len() == 36
    &&& at_most_three(b)
    &&& no_triples(b)
    &&& links_hold(b, mask)
}

/// A full board that meets every rule of the puzzle.
pub open spec fn solved(b: Seq<Cell>, mask: Seq<u8>) -> bool {
    &&& b.len() == 36
    &&& is_complete(b)
    &&& balanced(b)
    &&& no_triples(b)
    &&& links_hold(b, mask)
}

/// The cell that line `l` holds at position `p` lies on the grid, and it is
/// cell `k` exactly when `k` lies on that line at that position.
proof fn lemma_line_cell(h: bool, l: int, p: int, k: int)
    requires
        0 <= l < 6,
        0 <= p < 6,
        0 <= k < 36,
    ensures
        0 <= line_cell(h, l, p) < 36,
        h ==> (line_cell(h, l, p) == k <==> row_of(k) == l && col_of(k) == p),
        !h ==> (line_cell(h, l, p) == k <==> col_of(k) == l && row_of(k) == p),
{
}

/// Placing `v` on the empty cell `k` adds one to the count of `v` on the
/// lines through `k` and changes no other count.
pub(crate) proof fn lemma_count_update(s: Seq<Cell>, h: bool, l: int, x: Cell, k: int, v: Cell, n: int)
    requires
        s.len() == 36,
        0 <= l < 6,
        0 <= n <= 6,
        0 <= k < 36,
        s[k] == Cell::Blank,
        x != Cell::Blank,
    ensures
        count_prefix(s.update(k, v), h, l, x, n) == count_prefix(s, h, l, x, n) + if x == v && (if h {
            row_of(k) == l && col_of(k) < n
        } else {
            col_of(k) == l && row_of(k) < n
        }) {
            1int
        } else {
            0int
        },
    decreases n,
{
    if n > 0 {
        lemma_count_update(s, h, l, x, k, v, n - 1);
        lemma_line_cell(h, l, n - 1, k);
    }
}

/// A step to a neighbour and back returns to the cell.
pub proof fn lemma_nbr_back(i: int, d: int)
    requires
        0 <= i < 36,
        0 <= d < 4,
        has_nbr(i, d),
    ensures
        0 <= nbr(i, d) < 36,
        nbr(i, d) != i,
        has_nbr(nbr(i, d), opposite(d)),
        nbr(nbr(i, d), opposite(d)) == i,
{
}

proof fn lemma_place_counts(s: Seq<Cell>, mask: Seq<u8>, k: int, v: Cell)
    requires
        consistent(s, mask),
        0 <= k < 36,
        s[k] == Cell::Blank,
        v != Cell::Blank,
        placeable(s, k, mask, v),
    ensures
        at_most_three(s.update(k, v)),
{
    let t = s.update(k, v);
    assert forall|h: bool, l: int| 0 <= l < 6 implies #[trigger] count_line(t, h, l, Cell::Sun) <= 3
        && count_line(t, h, l, Cell::Moon) <= 3 by {
        lemma_count_update(s, h, l, Cell::Sun, k, v, 6);
        lemma_count_update(s, h, l, Cell::Moon, k, v, 6);
        assert(count_line(s, h, l, Cell::Sun) <= 3);
    }
}

proof fn lemma_place_triples(s: Seq<Cell>, mask: Seq<u8>, k: int, v: Cell)
    requires
        consistent(s, mask),
        0 <= k < 36,
        placeable(s, k, mask, v),
    ensures
        no_triples(s.update(k, v)),
{
    let t = s.update(k, v);
    assert forall|h: bool, l: int| 0 <= l < 6 implies !#[trigger] has_triple(t, h, l) by {
        let on = if h {
            row_of(k) == l
        } else {
            col_of(k) == l
        };
        if !on {
            assert(!has_triple(s, h, l));
            assert forall|p: int| 0 <= p < 4 implies !#[trigger] triple_at(t, h, l, p) by {
                lemma_line_cell(h, l, p, k);
                lemma_line_cell(h, l, p + 1, k);
                lemma_line_cell(h, l, p + 2, k);
                assert(!triple_at(s, h, l, p));
            }
        }
    }
}

proof fn lemma_place_link(s: Seq<Cell>, mask: Seq<u8>, k: int, v: Cell, i: int, d: int)
    requires
        s.len() == 36,
        links_hold(s, mask),
        symmetric(mask),
        0 <= k < 36,
        s[k] == Cell::Blank,
        v != Cell::Blank,
        forall|e: int| 0 <= e < 4 ==> #[trigger] link_ok(s, k, mask[k], e, v),
        0 <= i < 36,
        0 <= d < 4,
        s.update(k, v)[i] != Cell::Blank,
    ensures
        link_ok(s.update(k, v), i, mask[i], d, s.update(k, v)[i]),
{
    let t = s.update(k, v);
    if has_nbr(i, d) {
        lemma_nbr_back(i, d);
        let j = nbr(i, d);
        if i == k {
            assert(link_ok(s, k, mask[k], d, v));
        } else if j == k {
            let e = opposite(d);
            assert(t[i] == s[i]);
            if eq_rule(mask[i], d) {
                assert(eq_rule(mask[k], e));
                assert(link_ok(s, k, mask[k], e, v));
            }
            if ne_rule(mask[i], d) {
                assert(ne_rule(mask[k], e));
                assert(link_ok(s, k, mask[k], e, v));
            }
        } else {
            assert(link_ok(s, i, mask[i], d, s[i]));
        }
    }
}

proof fn lemma_place_links(s: Seq<Cell>, mask: Seq<u8>, k: int, v: Cell)
    requires
        consistent(s, mask),
        symmetric(mask),
        0 <= k < 36,
        s[k] == Cell::Blank,
        v != Cell::Blank,
        placeable(s, k, mask, v),
    ensures
        links_hold(s.update(k, v), mask),
{
    let t = s.update(k, v);
    assert forall|i: int, d: int|
        0 <= i < 36 && 0 <= d < 4 && t[i] != Cell::Blank implies #[trigger] link_ok(
        t,
        i,
        mask[i],
        d,
        t[i],
    ) by {
        lemma_place_link(s, mask, k, v, i, d);
    }
}

/// Placing a legal value on an empty cell of a board that breaks no rule
/// gives a board that breaks no rule, when the mask is symmetric.
pub proof fn lemma_place_keeps_consistent(s: Seq<Cell>, mask: Seq<u8>, k: int, v: Cell)
    requires
        consistent(s, mask),
        symmetric(mask),
        0 <= k < 36,
        s[k] == Cell::Blank,
        v != Cell::Blank,
        placeable(s, k, mask, v),
    ensures
        consistent(s.update(k, v), mask),
{
    lemma_place_counts(s, mask, k, v);
    lemma_place_triples(s, mask, k, v);
    lemma_place_links(s, mask, k, v);
}

/// On a full board each line holds six Suns and Moons together.
pub(crate) proof fn lemma_full_line(b: Seq<Cell>, h: bool, l: int)
    requires
        b.len() == 36,
        is_complete(b),
        0 <= l < 6,
    ensures
        count_line(b, h, l, Cell::Sun) + count_line(b, h, l, Cell::Moon) == 6,
{
    reveal_with_fuel(count_prefix, 7);
    lemma_line_cell(h, l, 0, 0);
    lemma_line_cell(h, l, 1, 0);
    lemma_line_cell(h, l, 2, 0);
    lemma_line_cell(h, l, 3, 0);
    lemma_line_cell(h, l, 4, 0);
    lemma_line_cell(h, l, 5, 0);
}

/// A full board that breaks no rule is solved.
pub proof fn lemma_full_consistent_is_solved(b: Seq<Cell>, mask: Seq<u8>)
    requires
        consistent(b, mask),
        is_complete(b),
    ensures
        solved(b, mask),
{
    assert forall|h: bool, l: int| 0 <= l < 6 implies #[trigger] count_line(b, h, l, Cell::Sun) == 3
        && count_line(b, h, l, Cell::Moon) == 3 by {
        lemma_full_line(b, h, l);
    }
}

/// Every filled cell of `s` holds the value it has in `c`.
pub open spec fn below(s: Seq<Cell>, c: Seq<Cell>) -> bool {
    &&& s.len() == 36
    &&& c.len() == 36
    &&& forall|j: int| 0 <= j < 36 && #[trigger] s[j] != Cell::Blank ==> s[j] == c[j]
}

/// A board below `c` counts no more of a symbol on any line than `c`.
pub(crate) proof fn lemma_count_monotone(s: Seq<Cell>, c: Seq<Cell>, h: bool, l: int, x: Cell, n: int)
    requires
        below(s, c),
        0 <= l < 6,
        0 <= n <= 6,
        x != Cell::Blank,
    ensures
        count_prefix(s, h, l, x, n) <= count_prefix(c, h, l, x, n),
    decreases n,
{
    if n > 0 {
        lemma_count_monotone(s, c, h, l, x, n - 1);
        lemma_line_cell(h, l, n - 1, 0);
    }
}

/// A board below `c` that leaves cell `k` empty counts at least one `c[k]`
/// fewer than `c` on the lines through `k`.
proof fn lemma_count_below(s: Seq<Cell>, c: Seq<Cell>, h: bool, l: int, x: Cell, k: int, n: int)
    requires
        below(s, c),
        0 <= l < 6,
        0 <= n <= 6,
        0 <= k < 36,
        s[k] == Cell::Blank,
        x != Cell::Blank,
    ensures
        count_prefix(s, h, l, x, n) + (if c[k] == x && (if h {
            row_of(k) == l && col_of(k) < n
        } else {
            col_of(k) == l && row_of(k) < n
        }) {
            1int
        } else {
            0int
        }) <= count_prefix(c, h, l, x, n),
    decreases n,
{
    if n > 0 {
        lemma_count_below(s, c, h, l, x, k, n - 1);
        lemma_line_cell(h, l, n - 1, k);
    }
}

/// On a solved board `c`, the value `c[k]` is legal at cell `k` of any board
/// below `c` that leaves `k` empty.
pub proof fn lemma_solution_value_placeable(s: Seq<Cell>, c: Seq<Cell>, mask: Seq<u8>, k: int)
    requires
        solved(c, mask),
        below(s, c),
        0 <= k < 36,
        s[k] == Cell::Blank,
    ensures
        placeable(s, k, mask, c[k]),
{
    let v = c[k];
    let t = s.update(k, v);
    lemma_count_below(s, c, true, row_of(k), v, k, 6);
    lemma_count_below(s, c, false, col_of(k), v, k, 6);
    assert(count_line(c, true, row_of(k), v) == 3);
    assert(count_line(c, false, col_of(k), v) == 3);
    assert forall|h: bool, l: int, p: int| 0 <= l < 6 && 0 <= p < 4 && #[trigger] triple_at(t, h, l, p) implies triple_at(c, h, l, p) by {
        lemma_line_cell(h, l, p, k);
        lemma_line_cell(h, l, p + 1, k);
        lemma_line_cell(h, l, p + 2, k);
    }
    assert(!has_triple(c, true, row_of(k)));
    assert(!has_triple(c, false, col_of(k)));
    assert forall|d: int| 0 <= d < 4 implies #[trigger] link_ok(s, k, mask[k], d, v) by {
        assert(link_ok(c, k, mask[k], d, c[k]));
        if has_nbr(k, d) {
            lemma_nbr_back(k, d);
        }
    }
}

/// How many cells of row or column `l` hold `v`.
fn count_in_line(board: &Board, horiz: bool, l: usize, v: Cell) -> (n: usize)
    requires
        l < 6,
    ensures
        n == count_line(board@, horiz, l as int, v),
{
    let mut n: usize = 0;
    let mut p: usize = 0;
    while p < SIDE
        invariant
            l < 6,
            p <= 6,
            n == count_prefix(board@, horiz, l as int, v, p as int),
            n <= p,
        decreases 6 - p,
    {
        let cur = if horiz {
            at(board, l, p)
        } else {
            at(board, p, l)
        };
        if cur == v {
            n = n + 1;
        }
        p = p + 1;
    }
    n
}

/// The value at cell `k` once `v` stands at cell `i`.
fn value_with(board: &Board, i: usize, v: Cell, k: usize) -> (x: Cell)
    requires
        i < 36,
        k < 36,
    ensures
        x == board@.update(i as int, v)[k as int],
{
    if k == i {
        v
    } else {
        board[k]
    }
}

/// Whether row or column `l` holds three equal filled values in a row once
/// `v` stands at cell `i`.
fn triple_in_line(board: &Board, i: usize, v: Cell, horiz: bool, l: usize) -> (found: bool)
    requires
        i < 36,
        l < 6,
    ensures
        found == has_triple(board@.update(i as int, v), horiz, l as int),
{
    let ghost b = board@.update(i as int, v);
    let mut p: usize = 0;
    while p < 4
        invariant
            i < 36,
            l < 6,
            p <= 4,
            b == board@.update(i as int, v),
            forall|q: int| 0 <= q < p ==> !#[trigger] triple_at(b, horiz, l as int, q),
        decreases 4 - p,
    {
        let (k0, k1, k2) = if horiz {
            (l * 6 + p, l * 6 + p + 1, l * 6 + p + 2)
        } else {
            (p * 6 + l, (p + 1) * 6 + l, (p + 2) * 6 + l)
        };
        let x0 = value_with(board, i, v, k0);
        let x1 = value_with(board, i, v, k1);
        let x2 = value_with(board, i, v, k2);
        if x0 != Cell::Blank && x1 == x0 && x2 == x0 {
            assert(triple_at(b, horiz, l as int, p as int));
            return true;
        }
        p = p + 1;
    }
    false
}

/// The neighbour of the cell at row `r`, column `c` in direction `d`, if it
/// lies on the grid.
fn neighbour(r: usize, c: usize, d: usize) -> (n: Option<usize>)
    requires
        r < 6,
        c < 6,
        d < 4,
    ensures
        n is Some <==> has_nbr(r * 6 + c, d as int),
        n is Some ==> n->0 == nbr(r * 6 + c, d as int) && n->0 < 36,
{
    let (nr, nc) = if d == 0 {
        if r == 0 {
            return None;
        }
        (r - 1, c)
    } else if d == 1 {
        (r, c + 1)
    } else if d == 2 {
        (r + 1, c)
    } else {
        if c == 0 {
            return None;
        }
        (r, c - 1)
    };
    if inside(nr, nc) {
        Some(nr * 6 + nc)
    } else {
        None
    }
}

/// Whether `candidate` may be placed at the empty cell `i` of `board`, under
/// the rules that `constraints` declares for that cell.
pub fn can_set(board: &Board, i: usize, constraints: &Mask, candidate: Cell) -> (ok: bool)
    requires
        i < 36,
        board@[i as int] == Cell::Blank,
        candidate != Cell::Blank,
    ensures
        ok == placeable(board@, i as int, constraints@, candidate),
{
    let r: usize = i / 6;
    let c: usize = i % 6;
    if count_in_line(board, true, r, candidate) >= 3 {
        return false;
    }
    if count_in_line(board, false, c, candidate) >= 3 {
        return false;
    }
    if triple_in_line(board, i, candidate, true, r) {
        return false;
    }
    if triple_in_line(board, i, candidate, false, c) {
        return false;
    }
    let m: u8 = constraints[i];
    assert(i == r * 6 + c);
    let mut d: usize = 0;
    while d < 4
        invariant
            i < 36,
            r < 6,
            c < 6,
            i == r * 6 + c,
            m == constraints@[i as int],
            d <= 4,
            forall|e: int| 0 <= e < d ==> #[trigger] link_ok(board@, i as int, m, e, candidate),
        decreases 4 - d,
    {
        match neighbour(r, c, d) {
            Some(k) => {
                let x = board[k];
                if x != Cell::Blank {
                    let must_equal = (m >> (d as u8)) & 1u8 == 1u8;
                    let must_differ = (m >> (d as u8 + 4)) & 1u8 == 1u8;
                    if must_equal && x != candidate {
                        assert(eq_rule(m, d as int));
                        assert(!link_ok(board@, i as int, m, d as int, candidate));
                        return false;
                    }
                    if must_differ && x == candidate {
                        assert(ne_rule(m, d as int));
                        assert(!link_ok(board@, i as int, m, d as int, candidate));
                        return false;
                    }
                }
            },
            None => {},
        }
        d = d + 1;
    }
    true
}

} // verus!
