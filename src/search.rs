//! Depth-first search over the cells in raster order.
use vstd::prelude::*;
use crate::board::{extends, is_complete, line_cell, nbr, Board, Cell, CELLS};
use crate::constraints::{
    adjacency, encodes, lemma_rule_points_both_ways, symmetric, toward, Constraint, Mask,
};
use crate::rules::{
    below, can_set, consistent, count_line, lemma_count_monotone, lemma_count_update,
    lemma_full_consistent_is_solved, lemma_full_line, lemma_place_keeps_consistent,
    lemma_solution_value_placeable, link_ok, placeable, solved,
};

verus! {

/// The board as the search sees it when it reaches cell `k` on its way to
/// the completion `c` of `b0`: the cells before `k` and the clues of `b0`
/// hold their values in `c`, the others are still empty.
pub open spec fn stage(c: Seq<Cell>, b0: Seq<Cell>, k: int) -> Seq<Cell> {
    Seq::new(36, |j: int| if j < k || b0[j] != Cell::Blank { c[j] } else { Cell::Blank })
}

/// `c` is a completion of `b0` that the search can reach from cell `from`:
/// it fills every cell, keeps every clue, and each cell from `from` on that
/// `b0` leaves empty got a value that was legal at the moment the search
/// placed it.
pub open spec fn accepts(b0: Seq<Cell>, mask: Seq<u8>, c: Seq<Cell>, from: int) -> bool {
    &&& b0.len() == 36
    &&& c.len() == 36
    &&& is_complete(c)
    &&& extends(c, b0)
    &&& forall|k: int|
        from <= k < 36 && b0[k] == Cell::Blank ==> #[trigger] placeable(
            stage(c, b0, k),
            k,
            mask,
            c[k],
        )
}

/// `a` comes no later than `c` in the order in which the search meets full
/// boards: equal, or Sun where `c` has Moon at the first cell they differ.
pub open spec fn precedes(a: Seq<Cell>, c: Seq<Cell>) -> bool {
    ||| a == c
    ||| exists|k: int|
        0 <= k < 36 && #[trigger] a[k] == Cell::Sun && c[k] == Cell::Moon && forall|j: int|
            0 <= j < k ==> a[j] == c[j]
}

/// The search succeeds on `b0`: some completion of it can be reached.
pub open spec fn solvable(b0: Seq<Cell>, mask: Seq<u8>) -> bool {
    exists|c: Seq<Cell>| accepts(b0, mask, c, 0)
}

/// Once every cell before `i` is filled, the stage at `i` of any completion
/// is the board itself.
proof fn lemma_stage_at_start(c: Seq<Cell>, b0: Seq<Cell>, i: int)
    requires
        b0.len() == 36,
        extends(c, b0),
        0 <= i <= 36,
        forall|j: int| 0 <= j < i ==> b0[j] != Cell::Blank,
    ensures
        stage(c, b0, i) == b0,
{
    assert(stage(c, b0, i) =~= b0);
}

/// Placing a legal value at the first empty cell `i` narrows the completions
/// reachable from `i` to those that hold that value there.
proof fn lemma_place(b0: Seq<Cell>, mask: Seq<u8>, i: int, v: Cell)
    requires
        b0.len() == 36,
        0 <= i < 36,
        b0[i] == Cell::Blank,
        v != Cell::Blank,
        forall|j: int| 0 <= j < i ==> b0[j] != Cell::Blank,
        placeable(b0, i, mask, v),
    ensures
        forall|c: Seq<Cell>|
            #[trigger] accepts(b0.update(i, v), mask, c, i + 1) <==> (accepts(b0, mask, c, i)
                && c[i] == v),
{
    let b1 = b0.update(i, v);
    assert forall|c: Seq<Cell>|
        #[trigger] accepts(b1, mask, c, i + 1) <==> (accepts(b0, mask, c, i) && c[i] == v) by {
        assert forall|k: int| i < k < 36 implies stage(c, b1, k) == stage(c, b0, k) by {
            assert(stage(c, b1, k) =~= stage(c, b0, k));
        }
        if accepts(b1, mask, c, i + 1) {
            assert(c[i] == b1[i]);
            assert forall|k: int| 0 <= k < 36 && #[trigger] b0[k] != Cell::Blank implies c[k] == b0[k] by {
                assert(b1[k] == b0[k]);
            }
            lemma_stage_at_start(c, b0, i);
            assert forall|k: int|
                i <= k < 36 && b0[k] == Cell::Blank implies #[trigger] placeable(
                stage(c, b0, k),
                k,
                mask,
                c[k],
            ) by {
                if k > i {
                    assert(b1[k] == Cell::Blank);
                }
            }
        }
        if accepts(b0, mask, c, i) && c[i] == v {
            assert forall|k: int|
                i + 1 <= k < 36 && b1[k] == Cell::Blank implies #[trigger] placeable(
                stage(c, b1, k),
                k,
                mask,
                c[k],
            ) by {
                assert(b0[k] == Cell::Blank);
            }
        }
    }
}

/// Fills the empty cells from `i` on, in raster order, trying Sun before
/// Moon at each, and keeps the first full assignment found. On failure every
/// tentative placement is undone.
pub fn helper(board: &mut Board, i: usize, constraints: &Mask) -> (found: bool)
    requires
        i <= 36,
        forall|j: int| 0 <= j < i ==> old(board)@[j] != Cell::Blank,
    ensures
        found == exists|c: Seq<Cell>| accepts(old(board)@, constraints@, c, i as int),
        found ==> accepts(old(board)@, constraints@, final(board)@, i as int),
        found ==> forall|c: Seq<Cell>| #[trigger]
            accepts(old(board)@, constraints@, c, i as int) ==> precedes(final(board)@, c),
        !found ==> *final(board) == *old(board),
    decreases 36 - i,
{
    let ghost b0 = board@;
    if i == CELLS {
        assert(accepts(b0, constraints@, b0, i as int));
        assert forall|c: Seq<Cell>| #[trigger] accepts(b0, constraints@, c, i as int) implies precedes(b0, c) by {
            assert(c =~= b0);
        }
        return true;
    }
    if board[i] != Cell::Blank {
        assert forall|c: Seq<Cell>|
            accepts(b0, constraints@, c, i as int) == accepts(
                b0,
                constraints@,
                c,
                i + 1,
            ) by {}
        let found = helper(board, i + 1, constraints);
        proof {
            if found {
                assert(accepts(b0, constraints@, board@, i as int));
            } else {
                assert forall|c: Seq<Cell>| !accepts(b0, constraints@, c, i as int) by {
                    assert(!accepts(b0, constraints@, c, i + 1));
                }
            }
        }
        return found;
    }
    let order: [Cell; 2] = [Cell::Sun, Cell::Moon];
    let mut n: usize = 0;
    while n < 2
        invariant
            i < 36,
            b0 == old(board)@,
            board@ == b0,
            b0[i as int] == Cell::Blank,
            forall|j: int| 0 <= j < i ==> b0[j] != Cell::Blank,
            order@ == seq![Cell::Sun, Cell::Moon],
            n <= 2,
            forall|c: Seq<Cell>, q: int|
                0 <= q < n && #[trigger] accepts(b0, constraints@, c, i as int) ==> c[i as int]
                    != #[trigger] order@[q],
        decreases 2 - n,
    {
        let v = order[n];
        if can_set(board, i, constraints, v) {
            proof {
                lemma_place(b0, constraints@, i as int, v);
            }
            board[i] = v;
            let ghost b1 = board@;
            assert(b1 == b0.update(i as int, v));
            if helper(board, i + 1, constraints) {
                let ghost f = board@;
                assert(accepts(b0, constraints@, f, i as int));
                assert forall|c: Seq<Cell>| #[trigger] accepts(b0, constraints@, c, i as int) implies precedes(f, c) by {
                    if c[i as int] == v {
                        assert(accepts(b1, constraints@, c, i + 1));
                    } else {
                        assert(n == 0);
                        assert(c[i as int] == Cell::Moon);
                        assert forall|j: int| 0 <= j < i implies f[j] == c[j] by {
                            assert(b0[j] != Cell::Blank);
                        }
                        assert(f[i as int] == Cell::Sun);
                    }
                }
                return true;
            }
            assert forall|c: Seq<Cell>| #[trigger]
                accepts(b0, constraints@, c, i as int) implies c[i as int] != v by {
                assert(!accepts(b1, constraints@, c, i + 1));
            }
            board[i] = Cell::Blank;
            assert(board@ =~= b0);
        } else {
            assert forall|c: Seq<Cell>| #[trigger]
                accepts(b0, constraints@, c, i as int) implies c[i as int] != v by {
                lemma_stage_at_start(c, b0, i as int);
            }
        }
        n = n + 1;
    }
    assert forall|c: Seq<Cell>| !accepts(b0, constraints@, c, i as int) by {
        if accepts(b0, constraints@, c, i as int) {
            assert(c[i as int] != order@[0]);
            assert(c[i as int] != order@[1]);
            assert(c[i as int] != Cell::Blank);
        }
    }
    false
}

/// Runs the search from the first cell: returns whether a full legal
/// assignment was found, and leaves it installed in `board`; otherwise the
/// board is left exactly as it was given.
pub fn solve(board: &mut Board, constraints: &Mask) -> (found: bool)
    ensures
        found == solvable(old(board)@, constraints@),
        found ==> accepts(old(board)@, constraints@, final(board)@, 0),
        found ==> forall|c: Seq<Cell>| #[trigger]
            accepts(old(board)@, constraints@, c, 0) ==> precedes(final(board)@, c),
        !found ==> *final(board) == *old(board),
        is_complete(old(board)@) ==> found && final(board)@ == old(board)@,
        found && consistent(old(board)@, constraints@) && symmetric(constraints@) ==> solved(
            final(board)@,
            constraints@,
        ),
        !found ==> forall|c: Seq<Cell>| #[trigger] extends(c, old(board)@) ==> !solved(c, constraints@),
{
    let ghost b0 = board@;
    let found = helper(board, 0, constraints);
    proof {
        if is_complete(b0) {
            assert(accepts(b0, constraints@, b0, 0));
            lemma_full_extension_is_same(board@, b0);
        }
        if !found {
            assert forall|c: Seq<Cell>| #[trigger] extends(c, b0) implies !solved(c, constraints@) by {
                if solved(c, constraints@) {
                    lemma_solution_is_accepted(b0, constraints@, c);
                }
            }
        }
        if found && consistent(b0, constraints@) && symmetric(constraints@) {
            lemma_accepted_is_solution(b0, constraints@, board@);
        }
    }
    found
}

/// A completion of a board that keeps all of its cells, when the board is
/// already full, is the board itself.
proof fn lemma_full_extension_is_same(c: Seq<Cell>, b0: Seq<Cell>)
    requires
        is_complete(b0),
        extends(c, b0),
    ensures
        c == b0,
{
    assert(c =~= b0);
}

/// Along the way to a reachable completion, every board the search passes
/// through breaks no rule, when the clues break none and the mask is
/// symmetric.
proof fn lemma_stage_consistent(b0: Seq<Cell>, mask: Seq<u8>, c: Seq<Cell>, k: int)
    requires
        consistent(b0, mask),
        symmetric(mask),
        accepts(b0, mask, c, 0),
        0 <= k <= 36,
    ensures
        consistent(stage(c, b0, k), mask),
    decreases k,
{
    if k == 0 {
        assert(stage(c, b0, 0) =~= b0);
    } else {
        lemma_stage_consistent(b0, mask, c, k - 1);
        let s = stage(c, b0, k - 1);
        if b0[k - 1] != Cell::Blank {
            assert(stage(c, b0, k) =~= s);
        } else {
            assert(stage(c, b0, k) =~= s.update(k - 1, c[k - 1]));
            assert(placeable(s, k - 1, mask, c[k - 1]));
            lemma_place_keeps_consistent(s, mask, k - 1, c[k - 1]);
        }
    }
}

/// Every completion the search can reach is a solved board: each row and
/// column holds exactly three Suns and three Moons, no three equal values
/// stand in a row, and every rule of the mask holds between neighbours. This
/// holds when the clues break no rule and the mask is symmetric, as every
/// mask built from a constraint list is.
pub proof fn lemma_accepted_is_solution(b0: Seq<Cell>, mask: Seq<u8>, c: Seq<Cell>)
    requires
        consistent(b0, mask),
        symmetric(mask),
        accepts(b0, mask, c, 0),
    ensures
        solved(c, mask),
{
    lemma_stage_consistent(b0, mask, c, 36);
    assert(stage(c, b0, 36) =~= c);
    lemma_full_consistent_is_solved(c, mask);
}

/// Every solved board that keeps the clues of `b0` is a completion the
/// search can reach: the search misses no solution.
pub proof fn lemma_solution_is_accepted(b0: Seq<Cell>, mask: Seq<u8>, c: Seq<Cell>)
    requires
        b0.len() == 36,
        solved(c, mask),
        extends(c, b0),
    ensures
        accepts(b0, mask, c, 0),
{
    assert forall|k: int| 0 <= k < 36 && b0[k] == Cell::Blank implies #[trigger] placeable(
        stage(c, b0, k),
        k,
        mask,
        c[k],
    ) by {
        let s = stage(c, b0, k);
        assert(below(s, c));
        lemma_solution_value_placeable(s, c, mask, k);
    }
}

/// On a solved board every declared constraint between grid neighbours
/// holds: equal values under an equality constraint, different values under
/// an inequality constraint.
pub proof fn lemma_declared_rules_hold(
    m: Seq<u8>,
    cs: Seq<Constraint>,
    mask: Seq<u8>,
    b: Seq<Cell>,
)
    requires
        encodes(m, cs, mask),
        solved(b, mask),
    ensures
        forall|j: int|
            0 <= j < cs.len() && adjacency(cs[j].from as int, cs[j].to as int) != 0 ==> if #[trigger] cs[j].eq {
                b[cs[j].from as int] == b[cs[j].to as int]
            } else {
                b[cs[j].from as int] != b[cs[j].to as int]
            },
{
    assert forall|j: int|
        0 <= j < cs.len() && adjacency(cs[j].from as int, cs[j].to as int) != 0 implies if #[trigger] cs[j].eq {
        b[cs[j].from as int] == b[cs[j].to as int]
    } else {
        b[cs[j].from as int] != b[cs[j].to as int]
    } by {
        lemma_rule_points_both_ways(m, cs, mask, j);
        let f = cs[j].from as int;
        let d = toward(adjacency(f, cs[j].to as int));
        assert(link_ok(b, f, mask[f], d, b[f]));
        assert(nbr(f, d) == cs[j].to as int);
    }
}

/// The most of symbol `x` that line `l` can hold on the way to a reachable
/// completion of `b0`: three, or more where the clues already hold more.
pub open spec fn line_cap(b0: Seq<Cell>, h: bool, l: int, x: Cell) -> int {
    if count_line(b0, h, l, x) > 3 {
        count_line(b0, h, l, x)
    } else {
        3
    }
}

/// Placements never take a line past three of a symbol: on the way to a
/// reachable completion each line holds at most its cap.
proof fn lemma_stage_capped(b0: Seq<Cell>, mask: Seq<u8>, c: Seq<Cell>, k: int)
    requires
        accepts(b0, mask, c, 0),
        0 <= k <= 36,
    ensures
        forall|h: bool, l: int, x: Cell|
            0 <= l < 6 && x != Cell::Blank ==> #[trigger] count_line(stage(c, b0, k), h, l, x)
                <= line_cap(b0, h, l, x),
    decreases k,
{
    if k == 0 {
        assert(stage(c, b0, 0) =~= b0);
    } else {
        lemma_stage_capped(b0, mask, c, k - 1);
        let s = stage(c, b0, k - 1);
        if b0[k - 1] != Cell::Blank {
            assert(stage(c, b0, k) =~= s);
        } else {
            let v = c[k - 1];
            assert(stage(c, b0, k) =~= s.update(k - 1, v));
            assert(placeable(s, k - 1, mask, v));
            assert forall|h: bool, l: int, x: Cell|
                0 <= l < 6 && x != Cell::Blank implies #[trigger] count_line(stage(c, b0, k), h, l, x)
                <= line_cap(b0, h, l, x) by {
                lemma_count_update(s, h, l, x, k - 1, v, 6);
                assert(count_line(s, h, l, x) <= line_cap(b0, h, l, x));
            }
        }
    }
}

/// One when cell `k` holds `x`, else zero.
spec fn holds(b: Seq<Cell>, k: int, x: Cell) -> int {
    if b[k] == x {
        1
    } else {
        0
    }
}

/// A line's count, cell by cell.
proof fn lemma_count_terms(b: Seq<Cell>, h: bool, l: int, x: Cell)
    ensures
        count_line(b, h, l, x) == holds(b, line_cell(h, l, 0), x) + holds(b, line_cell(h, l, 1), x)
            + holds(b, line_cell(h, l, 2), x) + holds(b, line_cell(h, l, 3), x) + holds(
            b,
            line_cell(h, l, 4),
            x,
        ) + holds(b, line_cell(h, l, 5), x),
{
    reveal_with_fuel(crate::rules::count_prefix, 7);
}

/// Counting the Suns (or Moons) of a board by rows or by columns gives the
/// same total.
proof fn lemma_rows_and_columns_total(b: Seq<Cell>, x: Cell)
    requires
        b.len() == 36,
    ensures
        count_line(b, true, 0, x) + count_line(b, true, 1, x) + count_line(b, true, 2, x)
            + count_line(b, true, 3, x) + count_line(b, true, 4, x) + count_line(b, true, 5, x)
            == count_line(b, false, 0, x) + count_line(b, false, 1, x) + count_line(b, false, 2, x)
            + count_line(b, false, 3, x) + count_line(b, false, 4, x) + count_line(b, false, 5, x),
{
    lemma_count_terms(b, true, 0, x);
    lemma_count_terms(b, true, 1, x);
    lemma_count_terms(b, true, 2, x);
    lemma_count_terms(b, true, 3, x);
    lemma_count_terms(b, true, 4, x);
    lemma_count_terms(b, true, 5, x);
    lemma_count_terms(b, false, 0, x);
    lemma_count_terms(b, false, 1, x);
    lemma_count_terms(b, false, 2, x);
    lemma_count_terms(b, false, 3, x);
    lemma_count_terms(b, false, 4, x);
    lemma_count_terms(b, false, 5, x);
}

/// A row whose clues hold four or more of one symbol cannot be completed,
/// when no other row and no column holds more than three of a symbol among
/// its clues: the search then fails, and leaves the board as it was.
pub proof fn lemma_overfull_row_unsolvable(b0: Seq<Cell>, mask: Seq<u8>, row: int, v: Cell)
    requires
        b0.len() == 36,
        0 <= row < 6,
        v != Cell::Blank,
        count_line(b0, true, row, v) >= 4,
        forall|h: bool, l: int|
            0 <= l < 6 && (h ==> l != row) ==> #[trigger] count_line(b0, h, l, Cell::Sun) <= 3
                && count_line(b0, h, l, Cell::Moon) <= 3,
    ensures
        !solvable(b0, mask),
{
    if solvable(b0, mask) {
        let c = choose|c: Seq<Cell>| accepts(b0, mask, c, 0);
        lemma_stage_capped(b0, mask, c, 36);
        assert(stage(c, b0, 36) =~= c);
        assert(below(b0, c));
        lemma_count_monotone(b0, c, true, row, v, 6);
        assert forall|l: int| 0 <= l < 6 implies #[trigger] count_line(c, false, l, v) <= 3 by {
            assert(count_line(b0, false, l, Cell::Sun) <= 3);
            assert(count_line(c, false, l, v) <= line_cap(b0, false, l, v));
        }
        assert forall|l: int| 0 <= l < 6 && l != row implies #[trigger] count_line(c, true, l, v) == 3 by {
            assert(count_line(b0, true, l, Cell::Sun) <= 3);
            assert(count_line(c, true, l, Cell::Sun) <= line_cap(b0, true, l, Cell::Sun));
            assert(count_line(c, true, l, Cell::Moon) <= line_cap(b0, true, l, Cell::Moon));
            lemma_full_line(c, true, l);
        }
        lemma_rows_and_columns_total(c, v);
        assert(count_line(c, false, 0, v) <= 3);
        assert(count_line(c, false, 1, v) <= 3);
        assert(count_line(c, false, 2, v) <= 3);
        assert(count_line(c, false, 3, v) <= 3);
        assert(count_line(c, false, 4, v) <= 3);
        assert(count_line(c, false, 5, v) <= 3);
        assert(row == 0 || count_line(c, true, 0, v) == 3);
        assert(row == 1 || count_line(c, true, 1, v) == 3);
        assert(row == 2 || count_line(c, true, 2, v) == 3);
        assert(row == 3 || count_line(c, true, 3, v) == 3);
        assert(row == 4 || count_line(c, true, 4, v) == 3);
        assert(row == 5 || count_line(c, true, 5, v) == 3);
    }
}

} // verus!
