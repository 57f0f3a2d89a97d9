//! Pairwise adjacency rules and their packed per-cell masks.
//!
//! A mask holds one byte per cell. Bits 0 to 3 mark an equality rule toward
//! the neighbour to the North, East, South and West; bits 4 to 7 mark an
//! inequality rule in the same order.
use vstd::prelude::*;
use crate::board::{col_of, has_nbr, nbr, opposite, row_of};

verus! {

/// A declared rule between two cells: equal values when `eq`, different
/// values otherwise.
#[derive(Clone, Copy, Debug, PartialEq, Eq)]
pub struct Constraint {
    pub from: u8,
    pub to: u8,
    pub eq: bool,
}

/// One mask byte per cell.
pub type Mask = [u8; 36];

/// Whether bit `b` of a mask byte is set.
pub open spec fn has_rule(m: u8, b: int) -> bool {
    0 <= b < 8 && (m >> (b as u8)) & 1u8 == 1u8
}

/// The signed offset `i - j` when cells `i` and `j` are orthogonal
/// neighbours on the grid, and 0 when they are not.
pub open spec fn adjacency(i: int, j: int) -> int {
    if 0 <= i < 36 && 0 <= j < 36 && (row_of(i) == row_of(j) || col_of(i) == col_of(j)) && (i
        - j == 1 || i - j == -1 || i - j == 6 || i - j == -6) {
        i - j
    } else {
        0
    }
}

/// The direction in which the second cell lies, seen from the first, for a
/// nonzero adjacency offset.
pub open spec fn toward(a: int) -> int {
    if a == 1 {
        3
    } else if a == -1 {
        1
    } else if a == 6 {
        0
    } else {
        2
    }
}

/// First bit of the group a rule kind uses: 0 for equality, 4 for inequality.
pub open spec fn group(eq: bool) -> int {
    if eq {
        0
    } else {
        4
    }
}

/// Whether constraint `c` marks bit `b` on cell `k`.
pub open spec fn marks(c: Constraint, k: int, b: int) -> bool {
    let a = adjacency(c.from as int, c.to as int);
    &&& a != 0
    &&& {
        ||| k == c.from && b == toward(a) + group(c.eq)
        ||| k == c.to && b == opposite(toward(a)) + group(c.eq)
    }
}

/// Some constraint of `cs` marks bit `b` on cell `k`.
pub open spec fn marked(cs: Seq<Constraint>, k: int, b: int) -> bool {
    exists|j: int| 0 <= j < cs.len() && #[trigger] marks(cs[j], k, b)
}

/// `new` is `old` with the bits of every constraint of `cs` added.
pub open spec fn encodes(old: Seq<u8>, cs: Seq<Constraint>, new: Seq<u8>) -> bool {
    &&& old.len() == 36
    &&& new.len() == 36
    &&& forall|k: int, b: int|
        0 <= k < 36 && 0 <= b < 8 ==> #[trigger] has_rule(new[k], b) == (has_rule(old[k], b)
            || marked(cs, k, b))
}

/// Cell byte `m` declares an equality rule toward direction `d`.
pub open spec fn eq_rule(m: u8, d: int) -> bool {
    has_rule(m, d)
}

/// Cell byte `m` declares an inequality rule toward direction `d`.
pub open spec fn ne_rule(m: u8, d: int) -> bool {
    has_rule(m, d + 4)
}

/// Every rule of the mask points at a cell of the grid, and that cell
/// carries the same kind of rule pointing back.
pub open spec fn symmetric(m: Seq<u8>) -> bool {
    &&& m.len() == 36
    &&& forall|i: int, d: int|
        0 <= i < 36 && 0 <= d < 4 && #[trigger] eq_rule(m[i], d) ==> has_nbr(i, d) && eq_rule(
            m[nbr(i, d)],
            opposite(d),
        )
    &&& forall|i: int, d: int|
        0 <= i < 36 && 0 <= d < 4 && #[trigger] ne_rule(m[i], d) ==> has_nbr(i, d) && ne_rule(
            m[nbr(i, d)],
            opposite(d),
        )
}

/// A mask with no rule at all.
pub open spec fn is_empty_mask(m: Seq<u8>) -> bool {
    &&& m.len() == 36
    &&& forall|k: int| 0 <= k < 36 ==> #[trigger] m[k] == 0
}

proof fn lemma_set_bit(m: u8, s: u8, k: u8)
    requires
        s < 8,
        k < 8,
    ensures
        ((m | (1u8 << s)) >> k) & 1u8 == 1u8 <==> ((m >> k) & 1u8 == 1u8 || k == s),
{
    assert(((m | (1u8 << s)) >> k) & 1u8 == 1u8 <==> ((m >> k) & 1u8 == 1u8 || k == s))
        by (bit_vector)
        requires
            s < 8,
            k < 8,
    ;
}

proof fn lemma_zero_bits(k: u8)
    requires
        k < 8,
    ensures
        (0u8 >> k) & 1u8 != 1u8,
{
    assert((0u8 >> k) & 1u8 != 1u8) by (bit_vector);
}

/// A nonzero adjacency offset names the direction from one cell to the
/// other, and the opposite direction leads back.
proof fn lemma_adjacency_direction(f: int, t: int)
    requires
        adjacency(f, t) != 0,
    ensures
        has_nbr(f, toward(adjacency(f, t))),
        nbr(f, toward(adjacency(f, t))) == t,
        has_nbr(t, opposite(toward(adjacency(f, t)))),
        nbr(t, opposite(toward(adjacency(f, t)))) == f,
{
}

/// Adding the bits of one constraint to a symmetric mask keeps it symmetric.
proof fn lemma_add_keeps_symmetric(prev: Seq<u8>, c: Constraint, next: Seq<u8>)
    requires
        symmetric(prev),
        next.len() == 36,
        forall|k: int, b: int|
            0 <= k < 36 && 0 <= b < 8 ==> #[trigger] has_rule(next[k], b) == (has_rule(prev[k], b)
                || marks(c, k, b)),
    ensures
        symmetric(next),
{
    let a = adjacency(c.from as int, c.to as int);
    if a != 0 {
        lemma_adjacency_direction(c.from as int, c.to as int);
    }
    assert forall|i: int, d: int| 0 <= i < 36 && 0 <= d < 4 && #[trigger] eq_rule(next[i], d) implies has_nbr(i, d)
        && eq_rule(next[nbr(i, d)], opposite(d)) by {
        assert(has_rule(next[i], d));
        if has_rule(prev[i], d) {
            assert(eq_rule(prev[i], d));
            assert(has_rule(next[nbr(i, d)], opposite(d)));
        } else {
            assert(marks(c, i, d));
            if i == c.from && d == toward(a) + group(c.eq) {
                assert(marks(c, c.to as int, opposite(d)));
                assert(has_rule(next[c.to as int], opposite(d)));
            } else {
                assert(marks(c, c.from as int, toward(a)));
                assert(has_rule(next[c.from as int], toward(a)));
            }
        }
    }
    assert forall|i: int, d: int| 0 <= i < 36 && 0 <= d < 4 && #[trigger] ne_rule(next[i], d) implies has_nbr(i, d)
        && ne_rule(next[nbr(i, d)], opposite(d)) by {
        assert(has_rule(next[i], d + 4));
        if has_rule(prev[i], d + 4) {
            assert(ne_rule(prev[i], d));
            assert(has_rule(next[nbr(i, d)], opposite(d) + 4));
        } else {
            assert(marks(c, i, d + 4));
            if i == c.from && d + 4 == toward(a) + group(c.eq) {
                assert(marks(c, c.to as int, opposite(d) + 4));
                assert(has_rule(next[c.to as int], opposite(d) + 4));
            } else {
                assert(marks(c, c.from as int, toward(a) + 4));
                assert(has_rule(next[c.from as int], toward(a) + 4));
            }
        }
    }
}

/// A mask with no rule is symmetric.
pub proof fn lemma_empty_mask_symmetric(m: Seq<u8>)
    requires
        is_empty_mask(m),
    ensures
        symmetric(m),
{
    assert forall|i: int, b: int| 0 <= i < 36 && 0 <= b < 8 implies !#[trigger] has_rule(m[i], b) by {
        lemma_zero_bits(b as u8);
    }
}

/// A constraint between cells that are not grid neighbours leaves the
/// encoding as it is: adding it to a list changes no bit of any cell.
pub proof fn lemma_non_adjacent_ignored(m: Seq<u8>, cs: Seq<Constraint>, c: Constraint, r: Seq<u8>)
    requires
        adjacency(c.from as int, c.to as int) == 0,
    ensures
        encodes(m, cs.push(c), r) <==> encodes(m, cs, r),
{
    let cs2 = cs.push(c);
    assert forall|k: int, b: int| 0 <= k < 36 && 0 <= b < 8 implies #[trigger] marked(cs2, k, b) == marked(cs, k, b) by {
        assert(!marks(c, k, b));
        if exists|j: int| 0 <= j < cs2.len() && #[trigger] marks(cs2[j], k, b) {
            let j = choose|j: int| 0 <= j < cs2.len() && #[trigger] marks(cs2[j], k, b);
            assert(j < cs.len());
            assert(cs[j] == cs2[j]);
        }
        if exists|j: int| 0 <= j < cs.len() && #[trigger] marks(cs[j], k, b) {
            let j = choose|j: int| 0 <= j < cs.len() && #[trigger] marks(cs[j], k, b);
            assert(cs[j] == cs2[j]);
        }
    }
}

/// The encoding is symmetric: a constraint between grid neighbours puts a
/// rule on its first cell pointing at the second, and a rule of the same
/// kind on the second pointing back at the first.
pub proof fn lemma_rule_points_both_ways(m: Seq<u8>, cs: Seq<Constraint>, r: Seq<u8>, j: int)
    requires
        encodes(m, cs, r),
        0 <= j < cs.len(),
        adjacency(cs[j].from as int, cs[j].to as int) != 0,
    ensures
        ({
            let f = cs[j].from as int;
            let t = cs[j].to as int;
            let d = toward(adjacency(f, t));
            &&& 0 <= d < 4
            &&& has_nbr(f, d)
            &&& nbr(f, d) == t
            &&& has_nbr(t, opposite(d))
            &&& nbr(t, opposite(d)) == f
            &&& cs[j].eq ==> eq_rule(r[f], d) && eq_rule(r[t], opposite(d))
            &&& !cs[j].eq ==> ne_rule(r[f], d) && ne_rule(r[t], opposite(d))
        }),
{
    let c = cs[j];
    let f = c.from as int;
    let t = c.to as int;
    let d = toward(adjacency(f, t));
    lemma_adjacency_direction(f, t);
    let g = group(c.eq);
    assert(marks(cs[j], f, d + g));
    assert(marks(cs[j], t, opposite(d) + g));
    assert(has_rule(r[f], d + g));
    assert(has_rule(r[t], opposite(d) + g));
}

/// The offset between two cells when they are grid neighbours, else 0.
/// Cells off the grid are never neighbours.
pub fn adjacent(i: u8, j: u8) -> (a: i8)
    ensures
        a == adjacency(i as int, j as int),
{
    if i >= 36 || j >= 36 {
        return 0;
    }
    let mut result: i8 = 0;
    if i / 6 == j / 6 || i % 6 == j % 6 {
        result = (i as i8) - (j as i8);
    }
    if result == 1 || result == -1 || result == 6 || result == -6 {
        result
    } else {
        0
    }
}

/// Adds the bits of every constraint to `result`: on the first cell the bit
/// toward the second, on the second the bit toward the first, in the
/// equality or inequality group. A constraint between cells that are not
/// grid neighbours is ignored.
pub fn parse_constraints(constraints: &Vec<Constraint>, result: &mut Mask)
    ensures
        encodes(old(result)@, constraints@, final(result)@),
        symmetric(old(result)@) ==> symmetric(final(result)@),
{
    let n = constraints.len();
    let mut idx: usize = 0;
    while idx < n
        invariant
            n == constraints@.len(),
            idx <= n,
            encodes(old(result)@, constraints@.take(idx as int), result@),
            symmetric(old(result)@) ==> symmetric(result@),
        decreases n - idx,
    {
        let c = constraints[idx];
        let ghost prev = result@;
        let a = adjacent(c.from, c.to);
        if a != 0 {
            let from_dir: u8 = if a == 1 {
                3
            } else if a == -1 {
                1
            } else if a == 6 {
                0
            } else {
                2
            };
            let to_dir: u8 = (from_dir + 2) % 4;
            let shift: u8 = if c.eq {
                0
            } else {
                4
            };
            let f = c.from as usize;
            let t = c.to as usize;
            let fs: u8 = from_dir + shift;
            let ts: u8 = to_dir + shift;
            result[f] = result[f] | (1u8 << fs);
            result[t] = result[t] | (1u8 << ts);
            proof {
                assert forall|k: int, b: int| 0 <= k < 36 && 0 <= b < 8 implies #[trigger] has_rule(result@[k], b) == (
                has_rule(prev[k], b) || marks(c, k, b)) by {
                    lemma_set_bit(prev[k], fs, b as u8);
                    lemma_set_bit(prev[k], ts, b as u8);
                    lemma_set_bit(prev[k] | (1u8 << fs), ts, b as u8);
                }
            }
        } else {
            assert forall|k: int, b: int| 0 <= k < 36 && 0 <= b < 8 implies !marks(c, k, b) by {}
        }
        proof {
            if symmetric(old(result)@) {
                lemma_add_keeps_symmetric(prev, c, result@);
            }
            let taken = constraints@.take(idx as int);
            let next = constraints@.take(idx + 1);
            assert(next[idx as int] == c);
            assert forall|k: int, b: int| 0 <= k < 36 && 0 <= b < 8 implies #[trigger] has_rule(result@[k], b) == (
            has_rule(old(result)@[k], b) || marked(next, k, b)) by {
                if exists|j: int| 0 <= j < next.len() && #[trigger] marks(next[j], k, b) {
                    let j = choose|j: int| 0 <= j < next.len() && #[trigger] marks(next[j], k, b);
                    if j < idx {
                        assert(taken[j] == next[j]);
                    }
                }
                if exists|j: int| 0 <= j < taken.len() && #[trigger] marks(taken[j], k, b) {
                    let j = choose|j: int| 0 <= j < taken.len() && #[trigger] marks(taken[j], k, b);
                    assert(taken[j] == next[j]);
                }
                if marks(c, k, b) {
                    assert(marks(next[idx as int], k, b));
                }
            }
        }
        idx = idx + 1;
    }
    assert(constraints@.take(n as int) =~= constraints@);
}

} // verus!
