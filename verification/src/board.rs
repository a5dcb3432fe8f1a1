//! The playing board: a 4x4 grid of tile values with a running maximum, the
//! four directional shift-and-merge moves, and the terminal-position check.

use vstd::prelude::*;

verus! {

broadcast use vstd::array::group_array_axioms;

/// A board: 16 cell values in row-major order, and the highest value any merge
/// or placement has ever produced. 0 marks an empty cell.
#[derive(Copy, Clone, Debug, PartialEq, Eq)]
pub struct Board(pub [u32; 16], pub u32);

/// One of the four edges a move pushes the tiles toward.
#[derive(Copy, Clone, Debug, PartialEq, Eq)]
pub enum Dir {
    Left,
    Right,
    Up,
    Down,
}

/// Two tile values merge exactly when they are 1 and 2 in either order, or
/// equal and neither 1 nor 2.
pub open spec fn spec_combines(a: u32, b: u32) -> bool {
    (a == 1 && b == 2) || (a == 2 && b == 1) || (a != 1 && a != 2 && a == b)
}

pub fn combines(a: u32, b: u32) -> (r: bool)
    ensures
        r == spec_combines(a, b),
{
    (a == 1 && b == 2) || (a == 2 && b == 1) || (a != 1 && a != 2 && a == b)
}

/// The merge rule does not depend on the order of the pair.
pub proof fn lemma_combines_symmetric(a: u32, b: u32)
    ensures
        spec_combines(a, b) == spec_combines(b, a),
{
}

/// The board index of the k-th cell of line l for direction d, counting from
/// the edge the tiles move toward. Lines are rows for horizontal moves and
/// columns for vertical ones.
pub open spec fn spec_line_idx(d: Dir, l: int, k: int) -> int {
    match d {
        Dir::Left => 4 * l + k,
        Dir::Right => 4 * l + 3 - k,
        Dir::Up => l + 4 * k,
        Dir::Down => l + 4 * (3 - k),
    }
}

fn line_idx(d: Dir, l: usize, k: usize) -> (r: usize)
    requires
        l < 4,
        k < 4,
    ensures
        r == spec_line_idx(d, l as int, k as int),
        r < 16,
{
    match d {
        Dir::Left => 4 * l + k,
        Dir::Right => 4 * l + 3 - k,
        Dir::Up => l + 4 * k,
        Dir::Down => l + 4 * (3 - k),
    }
}

/// Cells of one line of the board, in scan order for direction d.
pub open spec fn spec_line_of(c: Seq<u32>, d: Dir, l: int) -> Seq<u32> {
    Seq::new(4, |k: int| c[spec_line_idx(d, l, k)])
}

/// One scan step of a line's shift-and-merge pass, acting on position i.
/// Once a slide has started (`shiftable`), or when position i is empty, the
/// next cell slides forward; otherwise an adjacent pair that the merge rule
/// accepts is combined, the sum replacing the earlier cell and raising the
/// running maximum when it exceeds it. A merge whose sum would not fit the
/// cell type is not performed.
pub open spec fn spec_squish_step(
    line: Seq<u32>,
    max: u32,
    shiftable: bool,
    shifted: bool,
    i: int,
) -> (Seq<u32>, u32, bool, bool) {
    if shiftable || line[i] == 0 {
        (line.update(i, line[i + 1]), max, true, shifted || line[i + 1] != 0)
    } else if spec_combines(line[i], line[i + 1]) && line[i] + line[i + 1] <= u32::MAX {
        let v = (line[i] + line[i + 1]) as u32;
        (line.update(i, v), if v > max { v } else { max }, true, true)
    } else {
        (line, max, shiftable, shifted)
    }
}

/// The scan state after the first i steps of a line's pass.
pub open spec fn spec_squish_upto(line: Seq<u32>, max: u32, i: int) -> (Seq<u32>, u32, bool, bool)
    decreases i,
{
    if i <= 0 {
        (line, max, false, false)
    } else {
        let (l, m, sa, sd) = spec_squish_upto(line, max, i - 1);
        spec_squish_step(l, m, sa, sd, i - 1)
    }
}

/// The full result of shifting one line toward its edge: the new line, the new
/// running maximum, and whether anything moved. A line that moved leaves its
/// trailing cell empty; a line that did not is untouched.
pub open spec fn spec_squish_line(line: Seq<u32>, max: u32) -> (Seq<u32>, u32, bool) {
    let (l, m, sa, sd) = spec_squish_upto(line, max, 3);
    if sd {
        (l.update(3, 0), m, true)
    } else {
        (line, max, false)
    }
}

/// The board with the cells of line l for direction d replaced by nl.
pub open spec fn spec_write_line(c: Seq<u32>, d: Dir, l: int, nl: Seq<u32>) -> Seq<u32> {
    c.update(spec_line_idx(d, l, 0), nl[0]).update(spec_line_idx(d, l, 1), nl[1]).update(
        spec_line_idx(d, l, 2),
        nl[2],
    ).update(spec_line_idx(d, l, 3), nl[3])
}

/// The board and maximum after shifting line l for direction d, and whether
/// that line moved.
pub open spec fn spec_apply_line(c: Seq<u32>, max: u32, d: Dir, l: int) -> (Seq<u32>, u32, bool) {
    let (nl, m, sd) = spec_squish_line(spec_line_of(c, d, l), max);
    if sd {
        (spec_write_line(c, d, l, nl), m, true)
    } else {
        (c, max, false)
    }
}

/// The board, maximum and freed trailing cells after shifting the first n
/// lines for direction d, in line order.
pub open spec fn spec_move_upto(c: Seq<u32>, max: u32, d: Dir, n: int) -> (
    Seq<u32>,
    u32,
    Seq<usize>,
)
    decreases n,
{
    if n <= 0 {
        (c, max, Seq::empty())
    } else {
        let (c1, m1, freed) = spec_move_upto(c, max, d, n - 1);
        let (c2, m2, sd) = spec_apply_line(c1, m1, d, n - 1);
        if sd {
            (c2, m2, freed.push(spec_line_idx(d, n - 1, 3) as usize))
        } else {
            (c2, m2, freed)
        }
    }
}

/// The board, maximum and freed cells after a whole move toward direction d.
/// An empty freed sequence means no line changed: the move is illegal.
pub open spec fn spec_move(c: Seq<u32>, max: u32, d: Dir) -> (Seq<u32>, u32, Seq<usize>) {
    spec_move_upto(c, max, d, 4)
}

/// A board can move exactly when some cell is empty, or some horizontally or
/// vertically adjacent pair of cells satisfies the merge rule.
pub open spec fn spec_can_move(c: Seq<u32>) -> bool {
    (exists|p: int| 0 <= p < 16 && c[p] == 0) || (exists|p: int|
        0 <= p < 16 && p % 4 < 3 && spec_combines(#[trigger] c[p], c[p + 1])) || (exists|p: int|
        0 <= p < 12 && spec_combines(#[trigger] c[p], c[p + 4]))
}

/// The number of cells of s holding a non-zero value.
pub open spec fn nonzero_count(s: Seq<u32>) -> int
    decreases s.len(),
{
    if s.len() == 0 {
        0
    } else {
        nonzero_count(s.drop_last()) + if s.last() != 0 {
            1int
        } else {
            0
        }
    }
}

/// The sum of the values of s.
pub open spec fn seq_sum(s: Seq<u32>) -> int
    decreases s.len(),
{
    if s.len() == 0 {
        0
    } else {
        seq_sum(s.drop_last()) + s.last()
    }
}

pub proof fn lemma_nonzero_count_le(s: Seq<u32>)
    ensures
        0 <= nonzero_count(s) <= s.len(),
    decreases s.len(),
{
    if s.len() > 0 {
        lemma_nonzero_count_le(s.drop_last());
    }
}

/// Replacing one cell changes the non-zero count by the difference the old
/// and new values make.
pub proof fn lemma_nonzero_count_update(s: Seq<u32>, p: int, v: u32)
    requires
        0 <= p < s.len(),
    ensures
        nonzero_count(s.update(p, v)) == nonzero_count(s) - (if s[p] != 0 {
            1int
        } else {
            0
        }) + (if v != 0 {
            1int
        } else {
            0
        }),
    decreases s.len(),
{
    if p == s.len() - 1 {
        assert(s.update(p, v).drop_last() =~= s.drop_last());
    } else {
        lemma_nonzero_count_update(s.drop_last(), p, v);
        assert(s.update(p, v).drop_last() =~= s.drop_last().update(p, v));
    }
}

pub proof fn lemma_seq_sum_bounds(s: Seq<u32>)
    ensures
        0 <= seq_sum(s) <= s.len() * (u32::MAX as int),
    decreases s.len(),
{
    if s.len() > 0 {
        lemma_seq_sum_bounds(s.drop_last());
    }
}

/// Replacing one cell changes the sum by the difference of the values.
pub proof fn lemma_seq_sum_update(s: Seq<u32>, p: int, v: u32)
    requires
        0 <= p < s.len(),
    ensures
        seq_sum(s.update(p, v)) == seq_sum(s) - s[p] + v,
    decreases s.len(),
{
    if p == s.len() - 1 {
        assert(s.update(p, v).drop_last() =~= s.drop_last());
    } else {
        lemma_seq_sum_update(s.drop_last(), p, v);
        assert(s.update(p, v).drop_last() =~= s.drop_last().update(p, v));
    }
}

/// Line positions lie in the board and are pairwise distinct: two equal
/// positions come from the same line and the same offset.
pub proof fn lemma_line_idx_inj(d: Dir, l1: int, k1: int, l2: int, k2: int)
    requires
        0 <= l1 < 4,
        0 <= k1 < 4,
        0 <= l2 < 4,
        0 <= k2 < 4,
    ensures
        0 <= spec_line_idx(d, l1, k1) < 16,
        (spec_line_idx(d, l1, k1) == spec_line_idx(d, l2, k2)) == (l1 == l2 && k1 == k2),
{
}

/// Pointwise description of a line write: line positions take the new line's
/// values, every other position keeps its value.
pub proof fn lemma_write_line_index(c: Seq<u32>, d: Dir, l: int, nl: Seq<u32>)
    requires
        c.len() == 16,
        0 <= l < 4,
        nl.len() == 4,
    ensures
        spec_write_line(c, d, l, nl).len() == 16,
        forall|k: int|
            0 <= k < 4 ==> spec_write_line(c, d, l, nl)[spec_line_idx(d, l, k)] == nl[k],
        forall|j: int|
            0 <= j < 16 && j != spec_line_idx(d, l, 0) && j != spec_line_idx(d, l, 1) && j
                != spec_line_idx(d, l, 2) && j != spec_line_idx(d, l, 3) ==> spec_write_line(
                c,
                d,
                l,
                nl,
            )[j] == c[j],
{
    assert forall|k: int| 0 <= k < 4 implies spec_write_line(c, d, l, nl)[spec_line_idx(d, l, k)]
        == nl[k] by {
        lemma_line_idx_inj(d, l, k, l, 0);
        lemma_line_idx_inj(d, l, k, l, 1);
        lemma_line_idx_inj(d, l, k, l, 2);
        lemma_line_idx_inj(d, l, k, l, 3);
    }
}

/// Writing a line's own cells back leaves the board unchanged.
pub proof fn lemma_write_line_identity(c: Seq<u32>, d: Dir, l: int)
    requires
        c.len() == 16,
        0 <= l < 4,
    ensures
        spec_write_line(c, d, l, spec_line_of(c, d, l)) == c,
{
    lemma_write_line_index(c, d, l, spec_line_of(c, d, l));
    assert(spec_write_line(c, d, l, spec_line_of(c, d, l)) =~= c) by {
        assert forall|j: int|
            0 <= j < 16 implies spec_write_line(c, d, l, spec_line_of(c, d, l))[j] == c[j] by {
            if j == spec_line_idx(d, l, 0) {
                assert(spec_line_of(c, d, l)[0] == c[j]);
            } else if j == spec_line_idx(d, l, 1) {
                assert(spec_line_of(c, d, l)[1] == c[j]);
            } else if j == spec_line_idx(d, l, 2) {
                assert(spec_line_of(c, d, l)[2] == c[j]);
            } else if j == spec_line_idx(d, l, 3) {
                assert(spec_line_of(c, d, l)[3] == c[j]);
            }
        }
    }
}

/// Updating one cell of a written line is the same as writing the line with
/// that cell updated.
pub proof fn lemma_write_line_update(c: Seq<u32>, d: Dir, l: int, nl: Seq<u32>, k: int, v: u32)
    requires
        c.len() == 16,
        0 <= l < 4,
        nl.len() == 4,
        0 <= k < 4,
    ensures
        spec_write_line(c, d, l, nl).update(spec_line_idx(d, l, k), v) == spec_write_line(
            c,
            d,
            l,
            nl.update(k, v),
        ),
{
    lemma_write_line_index(c, d, l, nl);
    lemma_write_line_index(c, d, l, nl.update(k, v));
    assert forall|k2: int| 0 <= k2 < 4 implies #[trigger] spec_line_idx(d, l, k2) >= 0 by {
        lemma_line_idx_inj(d, l, k2, l, k);
    }
    assert(spec_write_line(c, d, l, nl).update(spec_line_idx(d, l, k), v) =~= spec_write_line(
        c,
        d,
        l,
        nl.update(k, v),
    ));
}

/// The scan has only written positions before its current step: the cells
/// from the step onward still hold the original line's values.
proof fn lemma_squish_suffix(line: Seq<u32>, max: u32, i: int)
    requires
        line.len() == 4,
        0 <= i <= 3,
    ensures
        ({
            let (l, m, sa, sd) = spec_squish_upto(line, max, i);
            l.len() == 4 && forall|j: int| i <= j < 4 ==> l[j] == line[j]
        }),
    decreases i,
{
    if i > 0 {
        lemma_squish_suffix(line, max, i - 1);
    }
}

/// A pass that moved nothing left the line, and the running maximum, as they
/// were; and whenever a slide has begun without moving anything, the cells
/// scanned so far were all empty.
proof fn lemma_squish_unshifted(line: Seq<u32>, max: u32, i: int)
    requires
        line.len() == 4,
        0 <= i <= 3,
    ensures
        ({
            let (l, m, sa, sd) = spec_squish_upto(line, max, i);
            !sd ==> l == line && m == max && (sa && i >= 1 ==> line[i] == 0)
        }),
    decreases i,
{
    if i > 0 {
        lemma_squish_unshifted(line, max, i - 1);
        let (l, m, sa, sd) = spec_squish_upto(line, max, i - 1);
        let (l2, m2, sa2, sd2) = spec_squish_step(l, m, sa, sd, i - 1);
        if !sd2 {
            if sa || l[i - 1] == 0 {
                assert(line[i] == 0);
                assert(l2 =~= line);
            }
        }
    }
}

/// A merge writes the pair's sum into the scanned cell and raises the running
/// maximum exactly when the sum exceeds it.
pub proof fn lemma_merge_result(line: Seq<u32>, max: u32, shifted: bool, i: int)
    requires
        line.len() == 4,
        0 <= i < 3,
        line[i] != 0,
        spec_combines(line[i], line[i + 1]),
        line[i] + line[i + 1] <= u32::MAX,
    ensures
        ({
            let (nl, nm, sa, sd) = spec_squish_step(line, max, false, shifted, i);
            &&& nl[i] == line[i] + line[i + 1]
            &&& nm == (if line[i] + line[i + 1] > max {
                (line[i] + line[i + 1]) as u32
            } else {
                max
            })
            &&& (nm > max <==> line[i] + line[i + 1] > max)
            &&& sd
        }),
{
}

proof fn lemma_sum_take_succ(s: Seq<u32>, k: int)
    requires
        0 <= k < s.len(),
    ensures
        seq_sum(s.take(k + 1)) == seq_sum(s.take(k)) + s[k],
{
    assert(s.take(k + 1).drop_last() =~= s.take(k));
}

proof fn lemma_count_take_succ(s: Seq<u32>, k: int)
    requires
        0 <= k < s.len(),
    ensures
        nonzero_count(s.take(k + 1)) == nonzero_count(s.take(k)) + if s[k] != 0 {
            1int
        } else {
            0
        },
{
    assert(s.take(k + 1).drop_last() =~= s.take(k));
}

/// Running facts about a line's scan: the maximum never falls; before any
/// slide or merge the state is untouched; once one has happened, the cells
/// behind the scan hold the same total as the original cells up to and
/// including the scan position, and no more non-zero cells.
proof fn lemma_squish_upto_state(line: Seq<u32>, max: u32, i: int)
    requires
        line.len() == 4,
        0 <= i <= 3,
    ensures
        ({
            let (l, m, sa, sd) = spec_squish_upto(line, max, i);
            &&& l.len() == 4
            &&& m >= max
            &&& (sd ==> sa)
            &&& (!sa ==> l == line && m == max)
            &&& (sa ==> seq_sum(l.take(i)) == seq_sum(line.take(i + 1)) && nonzero_count(
                line.take(i + 1),
            ) - 1 <= nonzero_count(l.take(i)) <= nonzero_count(line.take(i + 1)))
        }),
    decreases i,
{
    if i > 0 {
        lemma_squish_upto_state(line, max, i - 1);
        lemma_squish_suffix(line, max, i - 1);
        let (l, m, sa, sd) = spec_squish_upto(line, max, i - 1);
        let j = i - 1;
        if sa || l[j] == 0 {
            let l2 = l.update(j, l[j + 1]);
            assert(l2.take(j) =~= l.take(j));
            assert(l2.take(j + 1).drop_last() =~= l.take(j));
            assert(l2.take(j + 1).last() == line[j + 1]);
            assert(seq_sum(l2.take(i)) == seq_sum(l.take(j)) + line[j + 1]);
            assert(nonzero_count(l2.take(i)) == nonzero_count(l.take(j)) + if line[j + 1] != 0 {
                1int
            } else {
                0
            });
            lemma_sum_take_succ(line, j);
            lemma_sum_take_succ(line, i);
            lemma_count_take_succ(line, j);
            lemma_count_take_succ(line, i);
            if !sa {
                assert(l == line);
                assert(line[j] == 0);
            }
        } else if spec_combines(l[j], l[j + 1]) && l[j] + l[j + 1] <= u32::MAX {
            let v = (l[j] + l[j + 1]) as u32;
            let l2 = l.update(j, v);
            assert(l == line && m == max);
            assert(l2.take(j) =~= line.take(j));
            assert(l2.take(j + 1).drop_last() =~= line.take(j));
            assert(seq_sum(l2.take(i)) == seq_sum(line.take(j)) + v);
            assert(nonzero_count(l2.take(i)) == nonzero_count(line.take(j)) + 1);
            lemma_sum_take_succ(line, j);
            lemma_sum_take_succ(line, i);
            lemma_count_take_succ(line, j);
            lemma_count_take_succ(line, i);
        }
    }
}

/// A line's pass conserves its total exactly, never lowers the running
/// maximum, and leaves the trailing cell empty whenever anything moved. The
/// number of occupied cells never grows; it falls by exactly one when the
/// pass merged a pair, and is otherwise unchanged — a pass merges at most
/// once, since after a merge every later cell only slides.
pub proof fn lemma_squish_line_conserves(line: Seq<u32>, max: u32)
    requires
        line.len() == 4,
    ensures
        ({
            let (nl, m, sd) = spec_squish_line(line, max);
            &&& nl.len() == 4
            &&& seq_sum(nl) == seq_sum(line)
            &&& nonzero_count(line) - 1 <= nonzero_count(nl) <= nonzero_count(line)
            &&& m >= max
            &&& (sd ==> nl[3] == 0)
        }),
{
    let (l3, m3, sa, sd) = spec_squish_upto(line, max, 3);
    lemma_squish_upto_state(line, max, 3);
    if sd {
        let nl = l3.update(3, 0);
        assert(nl.take(3) =~= l3.take(3));
        assert(nl.drop_last() =~= nl.take(3));
        assert(line.take(4) =~= line);
        assert(seq_sum(nl) == seq_sum(l3.take(3)));
        assert(nonzero_count(nl) == nonzero_count(l3.take(3)));
    }
}

/// Shifting one line of the board conserves the board's total, does not add
/// occupied cells, only raises the maximum, touches no other line, and frees
/// the line's trailing cell when the line moved.
pub proof fn lemma_apply_line_facts(c: Seq<u32>, max: u32, d: Dir, l: int)
    requires
        c.len() == 16,
        0 <= l < 4,
    ensures
        ({
            let (nc, nm, sd) = spec_apply_line(c, max, d, l);
            &&& nc.len() == 16
            &&& seq_sum(nc) == seq_sum(c)
            &&& nonzero_count(nc) <= nonzero_count(c)
            &&& nm >= max
            &&& (!sd ==> nc == c && nm == max)
            &&& (sd ==> nc[spec_line_idx(d, l, 3)] == 0)
            &&& forall|l2: int, k2: int|
                0 <= l2 < 4 && 0 <= k2 < 4 && l2 != l ==> nc[#[trigger] spec_line_idx(d, l2, k2)]
                    == c[spec_line_idx(d, l2, k2)]
        }),
{
    let line = spec_line_of(c, d, l);
    let (nl, m, sd) = spec_squish_line(line, max);
    lemma_squish_line_conserves(line, max);
    if sd {
        let nc = spec_write_line(c, d, l, nl);
        lemma_write_line_index(c, d, l, nl);
        assert forall|l2: int, k2: int|
            0 <= l2 < 4 && 0 <= k2 < 4 && l2 != l implies nc[#[trigger] spec_line_idx(d, l2, k2)]
            == c[spec_line_idx(d, l2, k2)] by {
            lemma_line_idx_inj(d, l2, k2, l, 0);
            lemma_line_idx_inj(d, l2, k2, l, 1);
            lemma_line_idx_inj(d, l2, k2, l, 2);
            lemma_line_idx_inj(d, l2, k2, l, 3);
        }
        // the four updates shift the sums by the difference between the new
        // and the old line
        let i0 = spec_line_idx(d, l, 0);
        let i1 = spec_line_idx(d, l, 1);
        let i2 = spec_line_idx(d, l, 2);
        let i3 = spec_line_idx(d, l, 3);
        lemma_line_idx_inj(d, l, 0, l, 1);
        lemma_line_idx_inj(d, l, 0, l, 2);
        lemma_line_idx_inj(d, l, 0, l, 3);
        lemma_line_idx_inj(d, l, 1, l, 2);
        lemma_line_idx_inj(d, l, 1, l, 3);
        lemma_line_idx_inj(d, l, 2, l, 3);
        let c1 = c.update(i0, nl[0]);
        let c2 = c1.update(i1, nl[1]);
        let c3 = c2.update(i2, nl[2]);
        lemma_seq_sum_update(c, i0, nl[0]);
        lemma_seq_sum_update(c1, i1, nl[1]);
        lemma_seq_sum_update(c2, i2, nl[2]);
        lemma_seq_sum_update(c3, i3, nl[3]);
        lemma_nonzero_count_update(c, i0, nl[0]);
        lemma_nonzero_count_update(c1, i1, nl[1]);
        lemma_nonzero_count_update(c2, i2, nl[2]);
        lemma_nonzero_count_update(c3, i3, nl[3]);
        lemma_seq_sum4(line);
        lemma_seq_sum4(nl);
        lemma_count4(line);
        lemma_count4(nl);
        assert(line[0] == c[i0] && line[1] == c[i1] && line[2] == c[i2] && line[3] == c[i3]);
    }
}

proof fn lemma_seq_sum4(s: Seq<u32>)
    requires
        s.len() == 4,
    ensures
        seq_sum(s) == s[0] + s[1] + s[2] + s[3],
{
    let s3 = s.drop_last();
    let s2 = s3.drop_last();
    let s1 = s2.drop_last();
    let s0 = s1.drop_last();
    assert(seq_sum(s0) == 0);
    assert(seq_sum(s1) == s[0]);
    assert(seq_sum(s2) == s[0] + s[1]);
    assert(seq_sum(s3) == s[0] + s[1] + s[2]);
}

proof fn lemma_count4(s: Seq<u32>)
    requires
        s.len() == 4,
    ensures
        nonzero_count(s) == (if s[0] != 0 {
            1int
        } else {
            0
        }) + (if s[1] != 0 {
            1int
        } else {
            0
        }) + (if s[2] != 0 {
            1int
        } else {
            0
        }) + (if s[3] != 0 {
            1int
        } else {
            0
        }),
{
    let s3 = s.drop_last();
    let s2 = s3.drop_last();
    let s1 = s2.drop_last();
    let s0 = s1.drop_last();
    assert(nonzero_count(s0) == 0);
    assert(nonzero_count(s1) == if s[0] != 0 {
        1int
    } else {
        0
    });
    assert(nonzero_count(s2) == nonzero_count(s1) + if s[1] != 0 {
        1int
    } else {
        0
    });
    assert(nonzero_count(s3) == nonzero_count(s2) + if s[2] != 0 {
        1int
    } else {
        0
    });
}

/// A whole move conserves the board's total, does not add occupied cells and
/// never lowers the maximum; a move that freed nothing changed nothing; every
/// freed index names a cell of the resulting board that holds 0.
pub proof fn lemma_move_facts(c: Seq<u32>, max: u32, d: Dir, n: int)
    requires
        c.len() == 16,
        0 <= n <= 4,
    ensures
        ({
            let (nc, nm, freed) = spec_move_upto(c, max, d, n);
            &&& nc.len() == 16
            &&& seq_sum(nc) == seq_sum(c)
            &&& nonzero_count(nc) <= nonzero_count(c)
            &&& nm >= max
            &&& (freed.len() == 0 ==> nc == c && nm == max)
            &&& forall|t: int|
                0 <= t < freed.len() ==> #[trigger] freed[t] < 16 && nc[freed[t] as int] == 0
                    && exists|l2: int| 0 <= l2 < n && freed[t] == spec_line_idx(d, l2, 3)
        }),
    decreases n,
{
    if n > 0 {
        lemma_move_facts(c, max, d, n - 1);
        let (c1, m1, freed) = spec_move_upto(c, max, d, n - 1);
        let (c2, m2, sd) = spec_apply_line(c1, m1, d, n - 1);
        lemma_apply_line_facts(c1, m1, d, n - 1);
        assert forall|t: int| 0 <= t < freed.len() implies #[trigger] freed[t] < 16
            && c2[freed[t] as int] == 0 && exists|l2: int|
            0 <= l2 < n && freed[t] == spec_line_idx(d, l2, 3) by {
            let l2 = choose|l2: int| 0 <= l2 < n - 1 && freed[t] == spec_line_idx(d, l2, 3);
            if sd {
                lemma_line_idx_inj(d, l2, 3, n - 1, 3);
                assert(c2[spec_line_idx(d, l2, 3)] == c1[spec_line_idx(d, l2, 3)]);
            }
        }
    }
}

/// From a board with no empty cell and no adjacent pair the merge rule
/// accepts, no line of any direction can move.
pub proof fn lemma_terminal_no_moves(c: Seq<u32>, max: u32, d: Dir)
    requires
        c.len() == 16,
        !spec_can_move(c),
    ensures
        spec_move(c, max, d).2.len() == 0,
        spec_move(c, max, d).0 == c,
        spec_move(c, max, d).1 == max,
{
    assert forall|l: int, m2: u32| 0 <= l < 4 implies !(#[trigger] spec_squish_line(
        spec_line_of(c, d, l),
        m2,
    )).2 by {
        lemma_line_stuck(c, m2, d, l);
    }
    lemma_stuck_move_upto(c, max, d, 4);
}

proof fn lemma_stuck_move_upto(c: Seq<u32>, max: u32, d: Dir, n: int)
    requires
        c.len() == 16,
        0 <= n <= 4,
        forall|l: int, m2: u32|
            0 <= l < 4 ==> !(#[trigger] spec_squish_line(spec_line_of(c, d, l), m2)).2,
    ensures
        spec_move_upto(c, max, d, n) == (c, max, Seq::<usize>::empty()),
    decreases n,
{
    if n > 0 {
        lemma_stuck_move_upto(c, max, d, n - 1);
    }
}

/// On a board that cannot move, every cell of every line is occupied and no
/// adjacent pair within a line merges, so the line's scan does nothing.
proof fn lemma_line_stuck(c: Seq<u32>, max: u32, d: Dir, l: int)
    requires
        c.len() == 16,
        0 <= l < 4,
        !spec_can_move(c),
    ensures
        !spec_squish_line(spec_line_of(c, d, l), max).2,
{
    let line = spec_line_of(c, d, l);
    assert forall|k: int| 0 <= k < 4 implies #[trigger] line[k] != 0 by {
        lemma_line_idx_inj(d, l, k, l, k);
        assert(!(0 <= spec_line_idx(d, l, k) < 16 && c[spec_line_idx(d, l, k)] == 0));
    }
    assert forall|k: int| 0 <= k < 3 implies !spec_combines(#[trigger] line[k], line[k + 1]) by {
        lemma_line_idx_inj(d, l, k, l, k + 1);
        match d {
            Dir::Left => {
                let p = 4 * l + k;
                assert(!(0 <= p < 16 && p % 4 < 3 && spec_combines(c[p], c[p + 1])));
            },
            Dir::Right => {
                let p = 4 * l + 2 - k;
                assert(!(0 <= p < 16 && p % 4 < 3 && spec_combines(c[p], c[p + 1])));
                lemma_combines_symmetric(line[k], line[k + 1]);
            },
            Dir::Up => {
                let p = l + 4 * k;
                assert(!(0 <= p < 12 && spec_combines(c[p], c[p + 4])));
            },
            Dir::Down => {
                let p = l + 4 * (2 - k);
                assert(!(0 <= p < 12 && spec_combines(c[p], c[p + 4])));
                lemma_combines_symmetric(line[k], line[k + 1]);
            },
        }
    }
    assert(spec_squish_upto(line, max, 0) == (line, max, false, false));
    assert(spec_squish_upto(line, max, 1) == (line, max, false, false));
    assert(spec_squish_upto(line, max, 2) == (line, max, false, false));
    assert(spec_squish_upto(line, max, 3) == (line, max, false, false));
}

proof fn lemma_squish_max_independent(line: Seq<u32>, m1: u32, m2: u32, i: int)
    requires
        line.len() == 4,
        0 <= i <= 3,
    ensures
        ({
            let a = spec_squish_upto(line, m1, i);
            let b = spec_squish_upto(line, m2, i);
            a.0 == b.0 && a.2 == b.2 && a.3 == b.3
        }),
    decreases i,
{
    if i > 0 {
        lemma_squish_max_independent(line, m1, m2, i - 1);
    }
}

/// The scan's cells, and whether the line moves, do not depend on the
/// running maximum.
pub proof fn lemma_squish_line_max_independent(line: Seq<u32>, m1: u32, m2: u32)
    requires
        line.len() == 4,
    ensures
        spec_squish_line(line, m1).0 == spec_squish_line(line, m2).0,
        spec_squish_line(line, m1).2 == spec_squish_line(line, m2).2,
{
    lemma_squish_max_independent(line, m1, m2, 3);
}

proof fn lemma_move_freed_upto(c: Seq<u32>, max: u32, d: Dir, n: int)
    requires
        c.len() == 16,
        0 <= n <= 4,
    ensures
        ({
            let (cn, mn, freed) = spec_move_upto(c, max, d, n);
            &&& (forall|t1: int, t2: int| 0 <= t1 < t2 < freed.len() ==> freed[t1] < freed[t2])
            &&& (forall|l: int|
                0 <= l < n ==> (freed.contains(spec_line_idx(d, l, 3) as usize)
                    <==> spec_squish_line(spec_line_of(c, d, l), max).2))
            &&& (forall|l: int|
                n <= l < 4 ==> !freed.contains(spec_line_idx(d, l, 3) as usize))
            &&& (forall|l: int, k: int|
                0 <= l < 4 && 0 <= k < 4 && (l >= n || !spec_squish_line(
                    spec_line_of(c, d, l),
                    max,
                ).2) ==> cn[#[trigger] spec_line_idx(d, l, k)] == c[spec_line_idx(d, l, k)])
        }),
    decreases n,
{
    if n > 0 {
        lemma_move_freed_upto(c, max, d, n - 1);
        lemma_move_facts(c, max, d, n - 1);
        let (c1, m1, freed) = spec_move_upto(c, max, d, n - 1);
        let (c2, m2, sd) = spec_apply_line(c1, m1, d, n - 1);
        lemma_apply_line_facts(c1, m1, d, n - 1);
        let line = spec_line_of(c, d, n - 1);
        assert(spec_line_of(c1, d, n - 1) =~= line);
        lemma_squish_line_max_independent(line, m1, max);
        assert(sd == spec_squish_line(line, max).2);
        let idx3 = spec_line_idx(d, n - 1, 3) as usize;
        // earlier entries name earlier lines, whose trailing indices are
        // smaller in every direction
        assert forall|t: int| 0 <= t < freed.len() implies #[trigger] freed[t] < idx3 by {
            let l2 = choose|l2: int| 0 <= l2 < n - 1 && freed[t] == spec_line_idx(d, l2, 3);
            lemma_line_idx_inj(d, l2, 3, n - 1, 3);
        }
        if sd {
            let freed2 = freed.push(idx3);
            assert(freed2[freed.len() as int] == idx3);
            assert(freed2.contains(idx3));
            assert forall|l: int| 0 <= l < 4 && l != n - 1 implies (freed2.contains(
                spec_line_idx(d, l, 3) as usize,
            ) == freed.contains(spec_line_idx(d, l, 3) as usize)) by {
                lemma_line_idx_inj(d, l, 3, n - 1, 3);
                if freed.contains(spec_line_idx(d, l, 3) as usize) {
                    let t = choose|t: int|
                        0 <= t < freed.len() && freed[t] == spec_line_idx(d, l, 3) as usize;
                    assert(freed2[t] == freed[t]);
                } else if freed2.contains(spec_line_idx(d, l, 3) as usize) {
                    let t = choose|t: int|
                        0 <= t < freed2.len() && freed2[t] == spec_line_idx(d, l, 3) as usize;
                    assert(t < freed.len());
                    assert(freed[t] == freed2[t]);
                }
            }
        }
        assert forall|l: int, k: int|
            0 <= l < 4 && 0 <= k < 4 && (l >= n || !spec_squish_line(spec_line_of(c, d, l), max).2)
            implies c2[#[trigger] spec_line_idx(d, l, k)] == c[spec_line_idx(d, l, k)] by {
            if l != n - 1 {
                assert(c2[spec_line_idx(d, l, k)] == c1[spec_line_idx(d, l, k)]);
            }
        }
    }
}

/// The freed indices are exactly the trailing cells of the lines that
/// moved, listed in strictly increasing order, and a line that did not move
/// keeps all four of its cells.
pub proof fn lemma_move_freed_exact(c: Seq<u32>, max: u32, d: Dir)
    requires
        c.len() == 16,
    ensures
        ({
            let (nc, nm, freed) = spec_move(c, max, d);
            &&& (forall|t1: int, t2: int| 0 <= t1 < t2 < freed.len() ==> freed[t1] < freed[t2])
            &&& (forall|l: int|
                0 <= l < 4 ==> (freed.contains(spec_line_idx(d, l, 3) as usize)
                    <==> spec_squish_line(spec_line_of(c, d, l), max).2))
            &&& (forall|l: int, k: int|
                0 <= l < 4 && 0 <= k < 4 && !spec_squish_line(spec_line_of(c, d, l), max).2
                    ==> nc[#[trigger] spec_line_idx(d, l, k)] == c[spec_line_idx(d, l, k)])
        }),
{
    lemma_move_freed_upto(c, max, d, 4);
}

proof fn lemma_shifted_changed_upto(line: Seq<u32>, max: u32, i: int)
    requires
        line.len() == 4,
        0 <= i <= 3,
    ensures
        ({
            let (l, m, sa, sd) = spec_squish_upto(line, max, i);
            sd ==> exists|k: int| 0 <= k < i && l[k] != line[k]
        }),
    decreases i,
{
    if i > 0 {
        lemma_shifted_changed_upto(line, max, i - 1);
        lemma_squish_unshifted(line, max, i - 1);
        lemma_squish_suffix(line, max, i - 1);
        let (l, m, sa, sd) = spec_squish_upto(line, max, i - 1);
        let (l2, m2, sa2, sd2) = spec_squish_step(l, m, sa, sd, i - 1);
        if sd2 {
            if sd {
                let k = choose|k: int| 0 <= k < i - 1 && l[k] != line[k];
                assert(l2[k] != line[k]);
            } else {
                assert(l2[i - 1] != line[i - 1]);
            }
        }
    }
}

/// A line the scan reports moved really changed: some cell differs.
pub proof fn lemma_shifted_line_changed(line: Seq<u32>, max: u32)
    requires
        line.len() == 4,
        spec_squish_line(line, max).2,
    ensures
        exists|k: int| 0 <= k < 4 && spec_squish_line(line, max).0[k] != line[k],
{
    lemma_shifted_changed_upto(line, max, 3);
    lemma_squish_suffix(line, max, 3);
    let (l3, m3, sa3, sd3) = spec_squish_upto(line, max, 3);
    assert(sd3);
    let k = choose|k: int| 0 <= k < 3 && l3[k] != line[k];
    assert(spec_squish_line(line, max).0[k] != line[k]);
}

/// Once the scan can slide it keeps sliding, and once it moved it stays
/// moved.
proof fn lemma_squish_flags_monotone(line: Seq<u32>, max: u32, i: int, j: int)
    requires
        line.len() == 4,
        0 <= i <= j <= 3,
    ensures
        ({
            let a = spec_squish_upto(line, max, i);
            let b = spec_squish_upto(line, max, j);
            (a.2 ==> b.2) && (a.3 ==> b.3)
        }),
    decreases j,
{
    if i < j {
        lemma_squish_flags_monotone(line, max, i, j - 1);
    }
}

/// A line with an empty cell ahead of an occupied one always moves: the
/// empty cell starts a slide, which carries the occupied cell forward.
pub proof fn lemma_line_gap_shifts(line: Seq<u32>, max: u32, a: int, b: int)
    requires
        line.len() == 4,
        0 <= a < b < 4,
        line[a] == 0,
        line[b] != 0,
    ensures
        spec_squish_line(line, max).2,
{
    let (l3, m3, sa3, sd3) = spec_squish_upto(line, max, 3);
    if !sd3 {
        lemma_squish_flags_monotone(line, max, a + 1, 3);
        lemma_squish_unshifted(line, max, a);
        lemma_squish_suffix(line, max, a);
        let (la, ma, saa, sda) = spec_squish_upto(line, max, a);
        assert(!sda) by {
            lemma_squish_flags_monotone(line, max, a, 3);
        }
        // step a slides; if it slid the occupied cell the line moved at once
        assert(spec_squish_upto(line, max, a + 1).2);
        if b == a + 1 {
            assert(spec_squish_upto(line, max, a + 1).3);
        } else {
            lemma_squish_flags_monotone(line, max, a + 1, b - 1);
            lemma_squish_suffix(line, max, b - 1);
            let (lb, mb, sab, sdb) = spec_squish_upto(line, max, b - 1);
            assert(!sdb) by {
                lemma_squish_flags_monotone(line, max, b - 1, 3);
            }
            assert(lb[b] == line[b]);
            assert(spec_squish_upto(line, max, b).3);
            lemma_squish_flags_monotone(line, max, b, 3);
        }
    }
}

/// A fully occupied line whose adjacent pair at p merges within the cell
/// type always moves.
pub proof fn lemma_line_merge_shifts(line: Seq<u32>, max: u32, p: int)
    requires
        line.len() == 4,
        0 <= p < 3,
        forall|k: int| 0 <= k < 4 ==> #[trigger] line[k] != 0,
        spec_combines(line[p], line[p + 1]),
        line[p] + line[p + 1] <= u32::MAX,
    ensures
        spec_squish_line(line, max).2,
{
    let (l3, m3, sa3, sd3) = spec_squish_upto(line, max, 3);
    if !sd3 {
        lemma_squish_unshifted(line, max, p);
        lemma_squish_suffix(line, max, p);
        let (lp, mp, sap, sdp) = spec_squish_upto(line, max, p);
        assert(!sdp) by {
            lemma_squish_flags_monotone(line, max, p, 3);
        }
        assert(!sap);
        assert(spec_squish_upto(line, max, p + 1).3);
        lemma_squish_flags_monotone(line, max, p + 1, 3);
    }
}

/// An adjacent pair the merge rule accepts whose sum exceeds the cell type:
/// no scan will combine it.
pub open spec fn spec_blocked_pair(c: Seq<u32>) -> bool {
    (exists|p: int|
        0 <= p < 16 && p % 4 < 3 && spec_combines(#[trigger] c[p], c[p + 1]) && c[p] + c[p + 1]
            > u32::MAX) || (exists|p: int|
        0 <= p < 12 && spec_combines(#[trigger] c[p], c[p + 4]) && c[p] + c[p + 4] > u32::MAX)
}

spec fn row_has_zero(c: Seq<u32>, l: int) -> bool {
    c[4 * l] == 0 || c[4 * l + 1] == 0 || c[4 * l + 2] == 0 || c[4 * l + 3] == 0
}

spec fn row_has_nonzero(c: Seq<u32>, l: int) -> bool {
    c[4 * l] != 0 || c[4 * l + 1] != 0 || c[4 * l + 2] != 0 || c[4 * l + 3] != 0
}

/// A board holding both an empty and an occupied cell has two adjacent
/// cells, in a row or a column, of which exactly one is empty: walk within a
/// mixed row, or across the boundary of an all-empty and an all-occupied
/// row.
proof fn lemma_mixed_board_adjacent(c: Seq<u32>)
    requires
        c.len() == 16,
        exists|i: int| 0 <= i < 16 && c[i] == 0,
        exists|i: int| 0 <= i < 16 && c[i] != 0,
    ensures
        (exists|p: int| 0 <= p < 16 && p % 4 < 3 && ((#[trigger] c[p] == 0) != (c[p + 1] == 0)))
            || (exists|p: int| 0 <= p < 12 && ((#[trigger] c[p] == 0) != (c[p + 4] == 0))),
{
    let zi = choose|i: int| 0 <= i < 16 && c[i] == 0;
    let nj = choose|j: int| 0 <= j < 16 && c[j] != 0;
    assert(c[4 * (zi / 4) + zi % 4] == 0);
    assert(c[4 * (nj / 4) + nj % 4] != 0);
    assert(row_has_zero(c, zi / 4));
    assert(row_has_nonzero(c, nj / 4));
    if exists|l: int| 0 <= l < 4 && row_has_zero(c, l) && #[trigger] row_has_nonzero(c, l) {
        let l = choose|l: int| 0 <= l < 4 && row_has_zero(c, l) && #[trigger] row_has_nonzero(c, l);
        if (c[4 * l] == 0) != (c[4 * l + 1] == 0) {
            assert(0 <= 4 * l < 16 && (4 * l) % 4 < 3 && ((c[4 * l] == 0) != (c[4 * l + 1] == 0)));
        } else if (c[4 * l + 1] == 0) != (c[4 * l + 2] == 0) {
            assert(0 <= 4 * l + 1 < 16 && (4 * l + 1) % 4 < 3 && ((c[4 * l + 1] == 0) != (c[4 * l
                + 2] == 0)));
        } else {
            assert(0 <= 4 * l + 2 < 16 && (4 * l + 2) % 4 < 3 && ((c[4 * l + 2] == 0) != (c[4 * l
                + 3] == 0)));
        }
    } else {
        // every row is uniform, and the two witnesses sit in rows of
        // different kinds, so two vertically adjacent rows differ
        assert(forall|l: int|
            0 <= l < 4 ==> !(row_has_zero(c, l) && #[trigger] row_has_nonzero(c, l)));
        assert(!(row_has_zero(c, zi / 4) && row_has_nonzero(c, zi / 4)));
        assert(!row_has_nonzero(c, zi / 4));
        assert(c[4 * (zi / 4)] == 0);
        assert(c[4 * (nj / 4)] != 0);
        if (c[0] == 0) != (c[4] == 0) {
            assert(0 <= 0int < 12 && ((c[0int] == 0) != (c[0int + 4] == 0)));
        } else if (c[4] == 0) != (c[8] == 0) {
            assert(0 <= 4int < 12 && ((c[4int] == 0) != (c[4int + 4] == 0)));
        } else {
            assert(0 <= 8int < 12 && ((c[8int] == 0) != (c[8int + 4] == 0)));
        }
    }
}

/// When no direction can change the board yet the terminal check still sees
/// a move, the board is either entirely empty, or every move it sees is an
/// adjacent combinable pair whose sum exceeds the cell type.
pub proof fn lemma_stuck_reasons(c: Seq<u32>, max: u32)
    requires
        c.len() == 16,
        forall|d: Dir| (#[trigger] spec_move(c, max, d)).2.len() == 0,
        spec_can_move(c),
    ensures
        (forall|i: int| 0 <= i < 16 ==> c[i] == 0) || spec_blocked_pair(c),
{
    assert forall|d: Dir, l: int| 0 <= l < 4 implies !(#[trigger] spec_squish_line(
        spec_line_of(c, d, l),
        max,
    )).2 by {
        lemma_move_freed_exact(c, max, d);
        assert(spec_move(c, max, d).2.len() == 0);
        assert(!spec_move(c, max, d).2.contains(spec_line_idx(d, l, 3) as usize));
    }
    if !(forall|i: int| 0 <= i < 16 ==> c[i] == 0) {
        assert(exists|i: int| 0 <= i < 16 && c[i] != 0);
        if exists|i: int| 0 <= i < 16 && c[i] == 0 {
            // a mixed board always has a sliding line: contradiction
            lemma_mixed_board_adjacent(c);
            if exists|p: int|
                0 <= p < 16 && p % 4 < 3 && ((#[trigger] c[p] == 0) != (c[p + 1] == 0)) {
                let p = choose|p: int|
                    0 <= p < 16 && p % 4 < 3 && ((#[trigger] c[p] == 0) != (c[p + 1] == 0));
                let l = p / 4;
                let k = p % 4;
                if c[p] == 0 {
                    let line = spec_line_of(c, Dir::Left, l);
                    assert(line[k] == c[p] && line[k + 1] == c[p + 1]);
                    lemma_line_gap_shifts(line, max, k, k + 1);
                } else {
                    let line = spec_line_of(c, Dir::Right, l);
                    assert(line[2 - k] == c[p + 1] && line[3 - k] == c[p]);
                    lemma_line_gap_shifts(line, max, 2 - k, 3 - k);
                }
            } else {
                let p = choose|p: int| 0 <= p < 12 && ((#[trigger] c[p] == 0) != (c[p + 4] == 0));
                let l = p % 4;
                let k = p / 4;
                if c[p] == 0 {
                    let line = spec_line_of(c, Dir::Up, l);
                    assert(line[k] == c[p] && line[k + 1] == c[p + 4]);
                    lemma_line_gap_shifts(line, max, k, k + 1);
                } else {
                    let line = spec_line_of(c, Dir::Down, l);
                    assert(line[2 - k] == c[p + 4] && line[3 - k] == c[p]);
                    lemma_line_gap_shifts(line, max, 2 - k, 3 - k);
                }
            }
            assert(false);
        } else {
            // no empty cell: the terminal check saw a combinable pair, and
            // any such pair whose sum fits would let its line merge
            assert(forall|i: int| 0 <= i < 16 ==> c[i] != 0);
            if exists|p: int|
                0 <= p < 16 && p % 4 < 3 && spec_combines(#[trigger] c[p], c[p + 1]) {
                let p = choose|p: int|
                    0 <= p < 16 && p % 4 < 3 && spec_combines(#[trigger] c[p], c[p + 1]);
                if c[p] + c[p + 1] <= u32::MAX {
                    let l = p / 4;
                    let k = p % 4;
                    let line = spec_line_of(c, Dir::Left, l);
                    assert(forall|k2: int| 0 <= k2 < 4 ==> #[trigger] line[k2] != 0);
                    assert(line[k] == c[p] && line[k + 1] == c[p + 1]);
                    lemma_line_merge_shifts(line, max, k);
                    assert(false);
                }
            } else {
                let p = choose|p: int| 0 <= p < 12 && spec_combines(#[trigger] c[p], c[p + 4]);
                if c[p] + c[p + 4] <= u32::MAX {
                    let l = p % 4;
                    let k = p / 4;
                    let line = spec_line_of(c, Dir::Up, l);
                    assert(forall|k2: int| 0 <= k2 < 4 ==> #[trigger] line[k2] != 0);
                    assert(line[k] == c[p] && line[k + 1] == c[p + 4]);
                    lemma_line_merge_shifts(line, max, k);
                    assert(false);
                }
            }
        }
    }
}

/// A board with no occupied cell has total 0.
pub proof fn lemma_seq_sum_all_zero(s: Seq<u32>)
    requires
        forall|i: int| 0 <= i < s.len() ==> #[trigger] s[i] == 0,
    ensures
        seq_sum(s) == 0,
    decreases s.len(),
{
    if s.len() > 0 {
        lemma_seq_sum_all_zero(s.drop_last());
    }
}

/// A board with an occupied cell has a positive total.
pub proof fn lemma_seq_sum_positive(s: Seq<u32>)
    requires
        exists|i: int| 0 <= i < s.len() && s[i] != 0,
    ensures
        seq_sum(s) >= 1,
    decreases s.len(),
{
    let i = choose|i: int| 0 <= i < s.len() && s[i] != 0;
    lemma_seq_sum_bounds(s.drop_last());
    if i < s.len() - 1 {
        assert(s.drop_last()[i] != 0);
        lemma_seq_sum_positive(s.drop_last());
    }
}

impl Board {
    /// Shift line l toward the edge for direction d. Returns the board index
    /// of the trailing cell the line left empty, or None if nothing moved.
    fn squish(&mut self, d: Dir, l: usize) -> (r: Option<usize>)
        requires
            l < 4,
        ensures
            ({
                let (nc, nm, sd) = spec_apply_line(old(self).0@, old(self).1, d, l as int);
                &&& final(self).0@ == nc
                &&& final(self).1 == nm
                &&& r == (if sd {
                    Some(spec_line_idx(d, l as int, 3) as usize)
                } else {
                    None::<usize>
                })
            }),
    {
        let ghost c0 = self.0@;
        let ghost m0 = self.1;
        let ghost line0 = spec_line_of(c0, d, l as int);
        proof {
            lemma_write_line_identity(c0, d, l as int);
        }
        let mut shiftable = false;
        let mut shifted = false;
        for i in 0..3
            invariant
                l < 4,
                c0.len() == 16,
                line0 == spec_line_of(c0, d, l as int),
                ({
                    let (li, mi, sa, sd) = spec_squish_upto(line0, m0, i as int);
                    &&& li.len() == 4
                    &&& self.0@ == spec_write_line(c0, d, l as int, li)
                    &&& self.1 == mi
                    &&& shiftable == sa
                    &&& shifted == sd
                }),
        {
            let ghost (li, mi, sa, sd) = spec_squish_upto(line0, m0, i as int);
            proof {
                lemma_write_line_index(c0, d, l as int, li);
            }
            let idx = line_idx(d, l, i);
            let idxp1 = line_idx(d, l, i + 1);
            let a = self.0[idx];
            let b = self.0[idxp1];
            assert(a == li[i as int] && b == li[i as int + 1]);
            proof {
                lemma_squish_suffix(line0, m0, i as int);
            }
            if shiftable || a == 0 {
                if b != 0 {
                    shifted = true;
                }
                self.0[idx] = b;
                shiftable = true;
                proof {
                    lemma_write_line_update(c0, d, l as int, li, i as int, b);
                    assert(spec_squish_upto(line0, m0, i as int + 1) == spec_squish_step(
                        li,
                        mi,
                        sa,
                        sd,
                        i as int,
                    ));
                }
            } else if combines(a, b) && a <= u32::MAX - b {
                let v = a + b;
                if v > self.1 {
                    self.1 = v;
                }
                self.0[idx] = v;
                shifted = true;
                shiftable = true;
                proof {
                    lemma_write_line_update(c0, d, l as int, li, i as int, v);
                    assert(spec_squish_upto(line0, m0, i as int + 1) == spec_squish_step(
                        li,
                        mi,
                        sa,
                        sd,
                        i as int,
                    ));
                }
            } else {
                proof {
                    assert(spec_squish_upto(line0, m0, i as int + 1) == spec_squish_step(
                        li,
                        mi,
                        sa,
                        sd,
                        i as int,
                    ));
                }
            }
        }
        let ghost (li, mi, sa, sd) = spec_squish_upto(line0, m0, 3);
        if shifted {
            let idx3 = line_idx(d, l, 3);
            self.0[idx3] = 0;
            proof {
                lemma_write_line_update(c0, d, l as int, li, 3, 0);
            }
            Some(idx3)
        } else {
            proof {
                lemma_squish_unshifted(line0, m0, 3);
                lemma_write_line_identity(c0, d, l as int);
            }
            None
        }
    }

    /// Shift all four lines toward direction d. Returns the indices of the
    /// trailing cells freed by lines that moved, in line order.
    fn do_move(&mut self, d: Dir) -> (r: Vec<usize>)
        ensures
            ({
                let (nc, nm, freed) = spec_move(old(self).0@, old(self).1, d);
                final(self).0@ == nc && final(self).1 == nm && r@ == freed
            }),
            seq_sum(final(self).0@) == seq_sum(old(self).0@),
            nonzero_count(final(self).0@) <= nonzero_count(old(self).0@),
            final(self).1 >= old(self).1,
            forall|t: int| 0 <= t < r@.len() ==> #[trigger] r@[t] < 16 && final(self).0@[r@[t] as int] == 0,
            r@.len() == 0 ==> final(self).0@ == old(self).0@ && final(self).1 == old(self).1,
    {
        proof {
            lemma_move_facts(self.0@, self.1, d, 4);
        }
        let ghost c0 = self.0@;
        let ghost m0 = self.1;
        let mut freed: Vec<usize> = Vec::new();
        for l in 0..4
            invariant
                ({
                    let (ci, mi, fi) = spec_move_upto(c0, m0, d, l as int);
                    self.0@ == ci && self.1 == mi && freed@ == fi
                }),
        {
            let ghost (ci, mi, fi) = spec_move_upto(c0, m0, d, l as int);
            match self.squish(d, l) {
                Some(f) => freed.push(f),
                None => {},
            }
            proof {
                let (c2, m2, sd) = spec_apply_line(ci, mi, d, l as int);
                assert(spec_move_upto(c0, m0, d, l as int + 1) == (if sd {
                    (c2, m2, fi.push(spec_line_idx(d, l as int, 3) as usize))
                } else {
                    (c2, m2, fi)
                }));
            }
        }
        freed
    }

    /// Shift every row toward the left edge. The board's total is conserved, no occupied cell is
    /// added, the maximum never falls, every freed index names an empty cell
    /// of the new board, and a move that freed nothing changed nothing.
    pub fn left(&mut self) -> (r: Vec<usize>)
        ensures
            ({
                let (nc, nm, freed) = spec_move(old(self).0@, old(self).1, Dir::Left);
                final(self).0@ == nc && final(self).1 == nm && r@ == freed
            }),
            seq_sum(final(self).0@) == seq_sum(old(self).0@),
            nonzero_count(final(self).0@) <= nonzero_count(old(self).0@),
            final(self).1 >= old(self).1,
            forall|t: int| 0 <= t < r@.len() ==> #[trigger] r@[t] < 16 && final(self).0@[r@[t] as int] == 0,
            r@.len() == 0 ==> final(self).0@ == old(self).0@ && final(self).1 == old(self).1,
    {
        self.do_move(Dir::Left)
    }

    /// Shift every row toward the right edge. The board's total is conserved, no occupied cell is
    /// added, the maximum never falls, every freed index names an empty cell
    /// of the new board, and a move that freed nothing changed nothing.
    pub fn right(&mut self) -> (r: Vec<usize>)
        ensures
            ({
                let (nc, nm, freed) = spec_move(old(self).0@, old(self).1, Dir::Right);
                final(self).0@ == nc && final(self).1 == nm && r@ == freed
            }),
            seq_sum(final(self).0@) == seq_sum(old(self).0@),
            nonzero_count(final(self).0@) <= nonzero_count(old(self).0@),
            final(self).1 >= old(self).1,
            forall|t: int| 0 <= t < r@.len() ==> #[trigger] r@[t] < 16 && final(self).0@[r@[t] as int] == 0,
            r@.len() == 0 ==> final(self).0@ == old(self).0@ && final(self).1 == old(self).1,
    {
        self.do_move(Dir::Right)
    }

    /// Shift every column toward the top edge. The board's total is conserved, no occupied cell is
    /// added, the maximum never falls, every freed index names an empty cell
    /// of the new board, and a move that freed nothing changed nothing.
    pub fn up(&mut self) -> (r: Vec<usize>)
        ensures
            ({
                let (nc, nm, freed) = spec_move(old(self).0@, old(self).1, Dir::Up);
                final(self).0@ == nc && final(self).1 == nm && r@ == freed
            }),
            seq_sum(final(self).0@) == seq_sum(old(self).0@),
            nonzero_count(final(self).0@) <= nonzero_count(old(self).0@),
            final(self).1 >= old(self).1,
            forall|t: int| 0 <= t < r@.len() ==> #[trigger] r@[t] < 16 && final(self).0@[r@[t] as int] == 0,
            r@.len() == 0 ==> final(self).0@ == old(self).0@ && final(self).1 == old(self).1,
    {
        self.do_move(Dir::Up)
    }

    /// Shift every column toward the bottom edge. The board's total is conserved, no occupied cell is
    /// added, the maximum never falls, every freed index names an empty cell
    /// of the new board, and a move that freed nothing changed nothing.
    pub fn down(&mut self) -> (r: Vec<usize>)
        ensures
            ({
                let (nc, nm, freed) = spec_move(old(self).0@, old(self).1, Dir::Down);
                final(self).0@ == nc && final(self).1 == nm && r@ == freed
            }),
            seq_sum(final(self).0@) == seq_sum(old(self).0@),
            nonzero_count(final(self).0@) <= nonzero_count(old(self).0@),
            final(self).1 >= old(self).1,
            forall|t: int| 0 <= t < r@.len() ==> #[trigger] r@[t] < 16 && final(self).0@[r@[t] as int] == 0,
            r@.len() == 0 ==> final(self).0@ == old(self).0@ && final(self).1 == old(self).1,
    {
        self.do_move(Dir::Down)
    }

    /// True exactly when a cell is empty or an adjacent pair can merge.
    pub fn can_move(&self) -> (r: bool)
        ensures
            r == spec_can_move(self.0@),
    {
        for p in 0..16
            invariant
                forall|q: int| 0 <= q < p ==> self.0@[q] != 0,
        {
            if self.0[p] == 0 {
                return true;
            }
        }
        for p in 0..16
            invariant
                forall|q: int| 0 <= q < 16 ==> self.0@[q] != 0,
                forall|q: int| 0 <= q < p && q % 4 < 3 ==> !spec_combines(#[trigger] self.0@[q], self.0@[q + 1]),
        {
            if p % 4 < 3 && combines(self.0[p], self.0[p + 1]) {
                return true;
            }
        }
        for p in 0..12
            invariant
                forall|q: int| 0 <= q < 16 ==> self.0@[q] != 0,
                forall|q: int| 0 <= q < 16 && q % 4 < 3 ==> !spec_combines(#[trigger] self.0@[q], self.0@[q + 1]),
                forall|q: int| 0 <= q < p ==> !spec_combines(#[trigger] self.0@[q], self.0@[q + 4]),
        {
            if combines(self.0[p], self.0[p + 4]) {
                return true;
            }
        }
        false
    }

    /// The highest value a merge or placement has ever produced.
    pub fn max_val(&self) -> (r: u32)
        ensures
            r == self.1,
    {
        self.1
    }

    /// Place value c at cell pos if that cell is empty, raising the running
    /// maximum when c exceeds it. Returns whether the placement happened.
    pub fn set(&mut self, pos: usize, c: u32) -> (r: bool)
        ensures
            r == (pos < 16 && old(self).0@[pos as int] == 0),
            r ==> final(self).0@ == old(self).0@.update(pos as int, c) && final(self).1 == (if c
                > old(self).1 {
                c
            } else {
                old(self).1
            }),
            !r ==> final(self).0@ == old(self).0@ && final(self).1 == old(self).1,
    {
        if pos < 16 && self.0[pos] == 0 {
            self.0[pos] = c;
            if c > self.1 {
                self.1 = c;
            }
            true
        } else {
            false
        }
    }

    /// A copy of the 16 cell values.
    pub fn board(&self) -> (r: [u32; 16])
        ensures
            r@ == self.0@,
    {
        self.0
    }

    /// The indices of the empty cells, in strictly ascending order.
    pub fn empty_cells(&self) -> (r: Vec<usize>)
        ensures
            forall|t: int| 0 <= t < r@.len() ==> r@[t] < 16 && self.0@[r@[t] as int] == 0,
            r@.len() == 16 - nonzero_count(self.0@),
            forall|t1: int, t2: int| 0 <= t1 < t2 < r@.len() ==> r@[t1] < r@[t2],
    {
        let mut r: Vec<usize> = Vec::new();
        for p in 0..16
            invariant
                forall|t: int| 0 <= t < r@.len() ==> r@[t] < 16 && self.0@[r@[t] as int] == 0,
                r@.len() == p - nonzero_count(self.0@.take(p as int)),
                forall|t: int| 0 <= t < r@.len() ==> r@[t] < p,
                forall|t1: int, t2: int| 0 <= t1 < t2 < r@.len() ==> r@[t1] < r@[t2],
        {
            if self.0[p] == 0 {
                r.push(p);
            }
            proof {
                assert(self.0@.take(p as int + 1).drop_last() =~= self.0@.take(p as int));
                assert(self.0@.take(p as int + 1).last() == self.0@[p as int]);
                lemma_nonzero_count_le(self.0@.take(p as int));
            }
        }
        proof {
            assert(self.0@.take(16) =~= self.0@);
        }
        r
    }
}

impl Default for Board {
    /// An empty board: all cells 0, maximum 0.
    fn default() -> (r: Board)
        ensures
            r.0@ == Seq::new(16, |i: int| 0u32),
            r.1 == 0,
    {
        let r = Board([0u32; 16], 0);
        proof {
            assert(r.0@ =~= Seq::new(16, |i: int| 0u32));
        }
        r
    }
}

} // verus!
