//! Global alignment (Needleman-Wunsch): a score-maximising table and a
//! traceback that recovers one optimal alignment from it.
use crate::text::{chars_of, string_of};
use vstd::prelude::*;

verus! {

/// Rewards for a global alignment: `same` when two aligned characters are
/// equal, `diff` when they differ, `indel` for a character against a gap.
pub struct SimpleScoringSystem {
    pub same: i32,
    pub diff: i32,
    pub indel: i32,
}

impl SimpleScoringSystem {
    pub fn new(same: i32, diff: i32, indel: i32) -> (r: Self)
        ensures
            r.same == same,
            r.diff == diff,
            r.indel == indel,
    {
        Self { same, diff, indel }
    }
}

/// Reward for aligning `x` with `y`.
pub open spec fn pair_score(ss: SimpleScoringSystem, x: char, y: char) -> int {
    if x == y {
        ss.same as int
    } else {
        ss.diff as int
    }
}

pub open spec fn max3(x: int, y: int, z: int) -> int {
    if x >= y && x >= z {
        x
    } else if y >= z {
        y
    } else {
        z
    }
}

/// Best score of a global alignment of the first `i` characters of `a`
/// (the source) with the first `j` characters of `b` (the target).
pub open spec fn nw(ss: SimpleScoringSystem, a: Seq<char>, b: Seq<char>, i: nat, j: nat) -> int
    decreases i + j,
{
    if i == 0 {
        j * ss.indel
    } else if j == 0 {
        i * ss.indel
    } else {
        max3(
            nw(ss, a, b, (i - 1) as nat, j) + ss.indel,
            nw(ss, a, b, i, (j - 1) as nat) + ss.indel,
            nw(ss, a, b, (i - 1) as nat, (j - 1) as nat) + pair_score(ss, a[i - 1], b[j - 1]),
        )
    }
}

/// Best score of a global alignment of all of `a` with all of `b`.
pub open spec fn alignment_score(ss: SimpleScoringSystem, a: Seq<char>, b: Seq<char>) -> int {
    nw(ss, a, b, a.len(), b.len())
}

/// The indel reward if it is a penalty, else zero.
pub open spec fn indel_floor(ss: SimpleScoringSystem) -> int {
    if ss.indel < 0 { ss.indel as int } else { 0 }
}

/// The indel reward if it is a gain, else zero.
pub open spec fn indel_ceiling(ss: SimpleScoringSystem) -> int {
    if ss.indel > 0 { ss.indel as int } else { 0 }
}

/// The largest reward a pair of aligned characters can earn, or zero.
pub open spec fn pair_ceiling(ss: SimpleScoringSystem) -> int {
    let m = if ss.same >= ss.diff { ss.same as int } else { ss.diff as int };
    if m > 0 { m } else { 0 }
}

pub open spec fn min_nat(x: nat, y: nat) -> nat {
    if x <= y { x } else { y }
}

/// No prefix score is below this.
pub open spec fn score_floor(ss: SimpleScoringSystem, i: nat, j: nat) -> int {
    (i + j) * indel_floor(ss)
}

/// No prefix score is above this: every step may gain the indel reward, and at
/// most `min(i, j)` of them pair two characters.
pub open spec fn score_ceiling(ss: SimpleScoringSystem, i: nat, j: nat) -> int {
    (i + j) * indel_ceiling(ss) + min_nat(i, j) * pair_ceiling(ss)
}

/// Every score in the table of `a` against `b` fits in an `i32`.
pub open spec fn scores_fit(ss: SimpleScoringSystem, a: Seq<char>, b: Seq<char>) -> bool {
    &&& i32::MIN <= score_floor(ss, a.len(), b.len())
    &&& score_ceiling(ss, a.len(), b.len()) <= i32::MAX
}

proof fn lemma_step(p: int, m: int)
    ensures
        (p + 1) * m == p * m + m,
        0 * m == 0,
{
    assert((p + 1) * m == p * m + m) by (nonlinear_arith);
}

proof fn lemma_scale(p: int, q: int, m: int)
    requires
        0 <= p <= q,
    ensures
        m >= 0 ==> p * m <= q * m,
        m <= 0 ==> p * m >= q * m,
{
    assert(m >= 0 ==> p * m <= q * m) by (nonlinear_arith)
        requires
            0 <= p <= q,
    ;
    assert(m <= 0 ==> p * m >= q * m) by (nonlinear_arith)
        requires
            0 <= p <= q,
    ;
}

/// A prefix score lies between its floor and its ceiling.
proof fn lemma_nw_bounded(ss: SimpleScoringSystem, a: Seq<char>, b: Seq<char>, i: nat, j: nat)
    ensures
        score_floor(ss, i, j) <= nw(ss, a, b, i, j) <= score_ceiling(ss, i, j),
    decreases i + j,
{
    let lo = indel_floor(ss);
    let hi = indel_ceiling(ss);
    let pc = pair_ceiling(ss);
    let w = ss.indel as int;
    if i == 0 || j == 0 {
        let k = if i == 0 { j } else { i };
        assert(k * lo <= k * w <= k * hi) by (nonlinear_arith)
            requires
                lo <= w <= hi,
                0 <= k,
        ;
        lemma_step(0, pc);
    } else {
        lemma_nw_bounded(ss, a, b, (i - 1) as nat, j);
        lemma_nw_bounded(ss, a, b, i, (j - 1) as nat);
        lemma_nw_bounded(ss, a, b, (i - 1) as nat, (j - 1) as nat);
        let n = (i + j) as int;
        let mi = min_nat(i, j) as int;
        lemma_step(n - 1, lo);
        lemma_step(n - 1, hi);
        lemma_step(n - 2, hi);
        lemma_step(n - 2, lo);
        lemma_step(mi - 1, pc);
        lemma_scale(min_nat((i - 1) as nat, j) as int, mi, pc);
        lemma_scale(min_nat(i, (j - 1) as nat) as int, mi, pc);
        lemma_scale(n - 2, n - 1, lo);
        assert(score_floor(ss, i, j) <= nw(ss, a, b, (i - 1) as nat, j) + ss.indel);
    }
}

/// Every cell of the table fits in an `i32`.
proof fn lemma_cell_fits(ss: SimpleScoringSystem, a: Seq<char>, b: Seq<char>, i: nat, j: nat)
    requires
        i <= a.len(),
        j <= b.len(),
        scores_fit(ss, a, b),
    ensures
        i32::MIN <= nw(ss, a, b, i, j) <= i32::MAX,
{
    lemma_nw_bounded(ss, a, b, i, j);
    let n = (a.len() + b.len()) as int;
    lemma_scale((i + j) as int, n, indel_floor(ss));
    lemma_scale((i + j) as int, n, indel_ceiling(ss));
    lemma_scale(min_nat(i, j) as int, min_nat(a.len(), b.len()) as int, pair_ceiling(ss));
}

proof fn lemma_nw_prefix_symmetric(ss: SimpleScoringSystem, a: Seq<char>, b: Seq<char>, i: nat, j: nat)
    ensures
        nw(ss, a, b, i, j) == nw(ss, b, a, j, i),
    decreases i + j,
{
    if i > 0 && j > 0 {
        lemma_nw_prefix_symmetric(ss, a, b, (i - 1) as nat, j);
        lemma_nw_prefix_symmetric(ss, a, b, i, (j - 1) as nat);
        lemma_nw_prefix_symmetric(ss, a, b, (i - 1) as nat, (j - 1) as nat);
    }
}

/// One indel reward covers both insertion and deletion, so the best score does
/// not depend on which sequence is the source.
pub proof fn lemma_alignment_score_symmetric(ss: SimpleScoringSystem, a: Seq<char>, b: Seq<char>)
    ensures
        alignment_score(ss, a, b) == alignment_score(ss, b, a),
{
    lemma_nw_prefix_symmetric(ss, a, b, a.len(), b.len());
}

/// When a match is worth at least a mismatch and at least two gaps, no prefix
/// alignment beats pairing as many characters as possible with matches and
/// filling the rest with gaps.
proof fn lemma_nw_at_most_matches(ss: SimpleScoringSystem, a: Seq<char>, b: Seq<char>, i: nat, j: nat)
    requires
        ss.same >= ss.diff,
        2 * ss.indel <= ss.same,
    ensures
        nw(ss, a, b, i, j) <= min_nat(i, j) * ss.same + (i + j - 2 * min_nat(i, j)) * ss.indel,
    decreases i + j,
{
    let g = ss.indel as int;
    let m = min_nat(i, j) as int;
    let n = (i + j) as int;
    if i == 0 || j == 0 {
        lemma_step(0, ss.same as int);
    } else {
        lemma_nw_at_most_matches(ss, a, b, (i - 1) as nat, j);
        lemma_nw_at_most_matches(ss, a, b, i, (j - 1) as nat);
        lemma_nw_at_most_matches(ss, a, b, (i - 1) as nat, (j - 1) as nat);
        lemma_step(m - 1, ss.same as int);
        lemma_step(n - 2 * m, g);
        lemma_step(n - 2 * m - 1, g);
        lemma_step(n - 2 * m + 1, g);
        lemma_step(n - 2 * m - 2, g);
        lemma_step(n - 2 * m - 3, g);
    }
}

proof fn lemma_nw_prefix_self(ss: SimpleScoringSystem, a: Seq<char>, i: nat)
    requires
        ss.same >= ss.diff,
        2 * ss.indel <= ss.same,
    ensures
        nw(ss, a, a, i, i) == i * ss.same,
    decreases i,
{
    lemma_nw_at_most_matches(ss, a, a, i, i);
    lemma_step(0, ss.indel as int);
    lemma_step(0, ss.same as int);
    if i > 0 {
        lemma_nw_prefix_self(ss, a, (i - 1) as nat);
        lemma_step(i - 1, ss.same as int);
    }
}

/// A sequence aligned with itself earns one match reward per character, when
/// a match is worth at least a mismatch and at least two gaps.
pub proof fn lemma_self_alignment_score(ss: SimpleScoringSystem, a: Seq<char>)
    requires
        ss.same >= ss.diff,
        2 * ss.indel <= ss.same,
    ensures
        alignment_score(ss, a, a) == a.len() * ss.same,
{
    lemma_nw_prefix_self(ss, a, a.len());
}

/// Aligning against an empty sequence earns one indel reward per character of
/// the other side.
pub proof fn lemma_alignment_against_empty(ss: SimpleScoringSystem, a: Seq<char>)
    ensures
        alignment_score(ss, a, Seq::<char>::empty()) == a.len() * ss.indel,
        alignment_score(ss, Seq::<char>::empty(), a) == a.len() * ss.indel,
{
    lemma_step(0, ss.indel as int);
}

fn max_i64(x: i64, y: i64) -> (r: i64)
    ensures
        r == if x >= y { x } else { y },
{
    if x >= y {
        x
    } else {
        y
    }
}

/// The table of prefix scores: `grid[row][col]` is the best score of aligning
/// the first `col` characters of `a` with the first `row` characters of `b`.
pub open spec fn is_score_table(
    ss: SimpleScoringSystem,
    grid: Seq<Vec<i32>>,
    a: Seq<char>,
    b: Seq<char>,
) -> bool {
    &&& grid.len() == b.len() + 1
    &&& forall|r: int| 0 <= r <= b.len() ==> #[trigger] grid[r].len() == a.len() + 1
    &&& forall|r: int, c: int|
        0 <= r <= b.len() && 0 <= c <= a.len() ==> #[trigger] grid[r][c] == nw(ss, a, b, c as nat, r as nat)
}

/// Fills the whole table of prefix scores between `src` and `target`, one row
/// for each prefix of `target`.
#[verifier::loop_isolation(false)]
pub fn nw_grid(ss: &SimpleScoringSystem, src: &str, target: &str) -> (grid: Vec<Vec<i32>>)
    requires
        src@.len() < usize::MAX,
        target@.len() < usize::MAX,
        scores_fit(*ss, src@, target@),
    ensures
        is_score_table(*ss, grid@, src@, target@),
{
    let s = chars_of(src);
    let t = chars_of(target);
    let width = s.len();
    let height = t.len();

    let mut first: Vec<i32> = Vec::new();
    first.push(0);
    let mut k: usize = 1;
    while k <= width
        invariant
            1 <= k <= width + 1,
            first.len() == k,
            forall|c: int| 0 <= c < k ==> first[c] == nw(*ss, s@, t@, c as nat, 0),
        decreases width + 1 - k,
    {
        proof {
            lemma_cell_fits(*ss, s@, t@, k as nat, 0);
            lemma_step((k - 1) as int, ss.indel as int);
            assert(nw(*ss, s@, t@, k as nat, 0) == nw(*ss, s@, t@, (k - 1) as nat, 0) + ss.indel);
        }
        let v = first[k - 1] + ss.indel;
        first.push(v);
        k = k + 1;
    }
    let mut grid: Vec<Vec<i32>> = Vec::new();
    grid.push(first);

    let mut row: usize = 1;
    while row <= height
        invariant
            1 <= row <= height + 1,
            grid.len() == row,
            forall|r: int| 0 <= r < row ==> #[trigger] grid[r].len() == width + 1,
            forall|r: int, c: int|
                0 <= r < row && 0 <= c <= width ==> #[trigger] grid[r][c] == nw(*ss, s@, t@, c as nat, r as nat),
        decreases height + 1 - row,
    {
        let t_char = t[row - 1];
        let mut cur: Vec<i32> = Vec::new();
        proof {
            lemma_cell_fits(*ss, s@, t@, 0, row as nat);
            assert(grid[row - 1].len() == width + 1);
            lemma_step((row - 1) as int, ss.indel as int);
            assert(nw(*ss, s@, t@, 0, row as nat) == nw(*ss, s@, t@, 0, (row - 1) as nat) + ss.indel);
        }
        let v0 = grid[row - 1][0] + ss.indel;
        cur.push(v0);
        let mut col: usize = 1;
        while col <= width
            invariant
                1 <= col <= width + 1,
                cur.len() == col,
                grid[row - 1].len() == width + 1,
                forall|c: int| 0 <= c < col ==> cur[c] == nw(*ss, s@, t@, c as nat, row as nat),
            decreases width + 1 - col,
        {
            proof {
                lemma_cell_fits(*ss, s@, t@, col as nat, row as nat);
            }
            let pair = if t_char == s[col - 1] { ss.same } else { ss.diff };
            let left_cost = cur[col - 1] as i64 + ss.indel as i64;
            let up_cost = grid[row - 1][col] as i64 + ss.indel as i64;
            let diag_cost = grid[row - 1][col - 1] as i64 + pair as i64;
            let cell = max_i64(max_i64(left_cost, up_cost), diag_cost);
            cur.push(cell as i32);
            col = col + 1;
        }
        grid.push(cur);
        row = row + 1;
    }
    grid
}

/// Best global alignment score of `src` against `target`.
pub fn vecvec_nw(ss: &SimpleScoringSystem, src: &str, target: &str) -> (r: i32)
    requires
        src@.len() < usize::MAX,
        target@.len() < usize::MAX,
        scores_fit(*ss, src@, target@),
    ensures
        r == alignment_score(*ss, src@, target@),
{
    let grid = nw_grid(ss, src, target);
    let height = grid.len() - 1;
    assert(grid[height as int].len() == src@.len() + 1);
    let width = grid[height].len() - 1;
    grid[height][width]
}

/// The character that stands for a gap in an aligned string.
pub const GAP: char = '-';

/// One step of the traceback, from a cell towards the origin.
#[derive(PartialEq, Eq, Structural, Clone, Copy, Debug)]
pub enum Move {
    /// Both characters are aligned with each other.
    Diagonal,
    /// A target character is aligned with a gap.
    Up,
    /// A source character is aligned with a gap.
    Left,
}

/// Traceback cursor: `a_idx` counts source characters, `b_idx` target characters.
#[derive(Clone, Copy, Debug)]
struct AlignmentNode {
    a_idx: usize,
    b_idx: usize,
}

impl AlignmentNode {
    fn new(a_idx: usize, b_idx: usize) -> (r: Self)
        ensures
            r.a_idx == a_idx,
            r.b_idx == b_idx,
    {
        Self { a_idx, b_idx }
    }
}

/// Value of cell `(row, col)` of `grid`.
pub open spec fn cell(grid: Seq<Vec<i32>>, row: nat, col: nat) -> int {
    grid[row as int]@[col as int] as int
}

/// Which way the traceback leaves cell `(row, col)`: diagonally when that
/// cell's value comes from the diagonal, else up when it comes from above
/// (or the cursor is on the first column), else left.
pub open spec fn move_at(
    ss: SimpleScoringSystem,
    grid: Seq<Vec<i32>>,
    a: Seq<char>,
    b: Seq<char>,
    col: nat,
    row: nat,
) -> Move {
    if col > 0 && row > 0 && cell(grid, row, col) == cell(grid, (row - 1) as nat, (col - 1) as nat)
        + pair_score(ss, a[col - 1], b[row - 1]) {
        Move::Diagonal
    } else if row > 0 && (col == 0 || cell(grid, row, col) == cell(grid, (row - 1) as nat, col)
        + ss.indel) {
        Move::Up
    } else {
        Move::Left
    }
}

/// The two aligned strings that the traceback produces from cell `(row, col)`
/// back to the origin, in left-to-right order: source side first.
pub open spec fn trace(
    ss: SimpleScoringSystem,
    grid: Seq<Vec<i32>>,
    a: Seq<char>,
    b: Seq<char>,
    col: nat,
    row: nat,
) -> (Seq<char>, Seq<char>)
    decreases col + row,
{
    if col == 0 && row == 0 {
        (Seq::empty(), Seq::empty())
    } else {
        match move_at(ss, grid, a, b, col, row) {
            Move::Diagonal => {
                let p = trace(ss, grid, a, b, (col - 1) as nat, (row - 1) as nat);
                (p.0.push(a[col - 1]), p.1.push(b[row - 1]))
            },
            Move::Up => {
                let p = trace(ss, grid, a, b, col, (row - 1) as nat);
                (p.0.push(GAP), p.1.push(b[row - 1]))
            },
            Move::Left => {
                let p = trace(ss, grid, a, b, (col - 1) as nat, row);
                (p.0.push(a[col - 1]), p.1.push(GAP))
            },
        }
    }
}

/// `s` with every gap character taken out.
pub open spec fn without_gaps(s: Seq<char>) -> Seq<char>
    decreases s.len(),
{
    if s.len() == 0 {
        s
    } else if s.last() == GAP {
        without_gaps(s.drop_last())
    } else {
        without_gaps(s.drop_last()).push(s.last())
    }
}

/// `grid` has a row for each prefix of `b` and a column for each prefix of `a`.
pub open spec fn has_table_shape(grid: Seq<Vec<i32>>, a: Seq<char>, b: Seq<char>) -> bool {
    &&& grid.len() == b.len() + 1
    &&& forall|r: int| 0 <= r <= b.len() ==> #[trigger] grid[r].len() == a.len() + 1
}

proof fn lemma_trace_lengths(
    ss: SimpleScoringSystem,
    grid: Seq<Vec<i32>>,
    a: Seq<char>,
    b: Seq<char>,
    col: nat,
    row: nat,
)
    ensures
        trace(ss, grid, a, b, col, row).0.len() == trace(ss, grid, a, b, col, row).1.len(),
    decreases col + row,
{
    if col > 0 || row > 0 {
        match move_at(ss, grid, a, b, col, row) {
            Move::Diagonal => lemma_trace_lengths(ss, grid, a, b, (col - 1) as nat, (row - 1) as nat),
            Move::Up => lemma_trace_lengths(ss, grid, a, b, col, (row - 1) as nat),
            Move::Left => lemma_trace_lengths(ss, grid, a, b, (col - 1) as nat, row),
        }
    }
}

/// The two strings of an alignment always have the same length.
pub proof fn lemma_aligned_same_length(ss: SimpleScoringSystem, grid: Seq<Vec<i32>>, a: Seq<char>, b: Seq<char>)
    ensures
        trace(ss, grid, a, b, a.len(), b.len()).0.len() == trace(ss, grid, a, b, a.len(), b.len()).1.len(),
{
    lemma_trace_lengths(ss, grid, a, b, a.len(), b.len());
}

proof fn lemma_without_gaps_push(s: Seq<char>, c: char)
    ensures
        without_gaps(s.push(c)) == if c == GAP { without_gaps(s) } else { without_gaps(s).push(c) },
{
    assert(s.push(c).drop_last() =~= s);
}

proof fn lemma_trace_without_gaps(
    ss: SimpleScoringSystem,
    grid: Seq<Vec<i32>>,
    a: Seq<char>,
    b: Seq<char>,
    col: nat,
    row: nat,
)
    requires
        col <= a.len(),
        row <= b.len(),
        !a.contains(GAP),
        !b.contains(GAP),
    ensures
        without_gaps(trace(ss, grid, a, b, col, row).0) == a.take(col as int),
        without_gaps(trace(ss, grid, a, b, col, row).1) == b.take(row as int),
    decreases col + row,
{
    if col == 0 && row == 0 {
        assert(a.take(0) =~= Seq::<char>::empty());
        assert(b.take(0) =~= Seq::<char>::empty());
    } else {
        let t = trace(ss, grid, a, b, col, row);
        if col > 0 {
            assert(a.take(col as int) =~= a.take(col - 1).push(a[col - 1]));
            assert(a[col - 1] != GAP) by {
                if a[col - 1] == GAP {
                    assert(a.contains(GAP));
                }
            }
        }
        if row > 0 {
            assert(b.take(row as int) =~= b.take(row - 1).push(b[row - 1]));
            assert(b[row - 1] != GAP) by {
                if b[row - 1] == GAP {
                    assert(b.contains(GAP));
                }
            }
        }
        match move_at(ss, grid, a, b, col, row) {
            Move::Diagonal => {
                let p = trace(ss, grid, a, b, (col - 1) as nat, (row - 1) as nat);
                lemma_trace_without_gaps(ss, grid, a, b, (col - 1) as nat, (row - 1) as nat);
                lemma_without_gaps_push(p.0, a[col - 1]);
                lemma_without_gaps_push(p.1, b[row - 1]);
            },
            Move::Up => {
                let p = trace(ss, grid, a, b, col, (row - 1) as nat);
                lemma_trace_without_gaps(ss, grid, a, b, col, (row - 1) as nat);
                lemma_without_gaps_push(p.0, GAP);
                lemma_without_gaps_push(p.1, b[row - 1]);
            },
            Move::Left => {
                let p = trace(ss, grid, a, b, (col - 1) as nat, row);
                lemma_trace_without_gaps(ss, grid, a, b, (col - 1) as nat, row);
                lemma_without_gaps_push(p.0, a[col - 1]);
                lemma_without_gaps_push(p.1, GAP);
            },
        }
    }
}

/// Taking the gaps out of an alignment gives back the source and the target,
/// as long as neither holds the gap character itself.
pub proof fn lemma_alignment_round_trip(ss: SimpleScoringSystem, grid: Seq<Vec<i32>>, a: Seq<char>, b: Seq<char>)
    requires
        !a.contains(GAP),
        !b.contains(GAP),
    ensures
        without_gaps(trace(ss, grid, a, b, a.len(), b.len()).0) == a,
        without_gaps(trace(ss, grid, a, b, a.len(), b.len()).1) == b,
{
    lemma_trace_without_gaps(ss, grid, a, b, a.len(), b.len());
    assert(a.take(a.len() as int) =~= a);
    assert(b.take(b.len() as int) =~= b);
}

/// Reward of one column of an alignment: a gap on either side earns the indel
/// reward, two characters earn their pair reward.
pub open spec fn column_score(ss: SimpleScoringSystem, x: char, y: char) -> int {
    if x == GAP || y == GAP {
        ss.indel as int
    } else {
        pair_score(ss, x, y)
    }
}

/// Total reward of the alignment of `x` over `y`, column by column.
pub open spec fn aligned_score(ss: SimpleScoringSystem, x: Seq<char>, y: Seq<char>) -> int
    decreases x.len(),
{
    if x.len() == 0 || y.len() == 0 {
        0
    } else {
        aligned_score(ss, x.drop_last(), y.drop_last()) + column_score(ss, x.last(), y.last())
    }
}

proof fn lemma_trace_score(
    ss: SimpleScoringSystem,
    grid: Seq<Vec<i32>>,
    a: Seq<char>,
    b: Seq<char>,
    col: nat,
    row: nat,
)
    requires
        is_score_table(ss, grid, a, b),
        col <= a.len(),
        row <= b.len(),
        !a.contains(GAP),
        !b.contains(GAP),
    ensures
        aligned_score(ss, trace(ss, grid, a, b, col, row).0, trace(ss, grid, a, b, col, row).1)
            == nw(ss, a, b, col, row),
    decreases col + row,
{
    if col > 0 || row > 0 {
        assert(cell(grid, row, col) == nw(ss, a, b, col, row)) by {
            assert(grid[row as int][col as int] == nw(ss, a, b, col, row));
        }
        if col > 0 {
            assert(a[col - 1] != GAP) by {
                if a[col - 1] == GAP {
                    assert(a.contains(GAP));
                }
            }
        }
        if row > 0 {
            assert(b[row - 1] != GAP) by {
                if b[row - 1] == GAP {
                    assert(b.contains(GAP));
                }
            }
            assert(cell(grid, (row - 1) as nat, col) == nw(ss, a, b, col, (row - 1) as nat)) by {
                assert(grid[row - 1][col as int] == nw(ss, a, b, col, (row - 1) as nat));
            }
        }
        if col > 0 && row > 0 {
            assert(cell(grid, (row - 1) as nat, (col - 1) as nat) == nw(ss, a, b, (col - 1) as nat, (row - 1) as nat)) by {
                assert(grid[row - 1][col - 1] == nw(ss, a, b, (col - 1) as nat, (row - 1) as nat));
            }
        }
        lemma_step(row - 1, ss.indel as int);
        lemma_step(col - 1, ss.indel as int);
        match move_at(ss, grid, a, b, col, row) {
            Move::Diagonal => {
                let p = trace(ss, grid, a, b, (col - 1) as nat, (row - 1) as nat);
                lemma_trace_score(ss, grid, a, b, (col - 1) as nat, (row - 1) as nat);
                assert(p.0.push(a[col - 1]).drop_last() =~= p.0);
                assert(p.1.push(b[row - 1]).drop_last() =~= p.1);
            },
            Move::Up => {
                let p = trace(ss, grid, a, b, col, (row - 1) as nat);
                lemma_trace_score(ss, grid, a, b, col, (row - 1) as nat);
                assert(p.0.push(GAP).drop_last() =~= p.0);
                assert(p.1.push(b[row - 1]).drop_last() =~= p.1);
            },
            Move::Left => {
                let p = trace(ss, grid, a, b, (col - 1) as nat, row);
                lemma_trace_score(ss, grid, a, b, (col - 1) as nat, row);
                assert(p.0.push(a[col - 1]).drop_last() =~= p.0);
                assert(p.1.push(GAP).drop_last() =~= p.1);
            },
        }
    }
}

/// The traceback returns an optimal alignment: the rewards of its columns add
/// up to the best score, as long as neither input holds the gap character.
pub proof fn lemma_alignment_optimal(ss: SimpleScoringSystem, grid: Seq<Vec<i32>>, a: Seq<char>, b: Seq<char>)
    requires
        is_score_table(ss, grid, a, b),
        !a.contains(GAP),
        !b.contains(GAP),
    ensures
        aligned_score(ss, trace(ss, grid, a, b, a.len(), b.len()).0, trace(ss, grid, a, b, a.len(), b.len()).1)
            == alignment_score(ss, a, b),
{
    lemma_trace_score(ss, grid, a, b, a.len(), b.len());
}

fn next_move(
    ss: &SimpleScoringSystem,
    grid: &Vec<Vec<i32>>,
    s: &Vec<char>,
    t: &Vec<char>,
    col: usize,
    row: usize,
) -> (m: Move)
    requires
        has_table_shape(grid@, s@, t@),
        col <= s.len(),
        row <= t.len(),
        col > 0 || row > 0,
    ensures
        m == move_at(*ss, grid@, s@, t@, col as nat, row as nat),
{
    assert(grid[row as int].len() == s.len() + 1);
    let here = grid[row][col] as i64;
    if col > 0 && row > 0 {
        assert(grid[row - 1].len() == s.len() + 1);
        let pair = if s[col - 1] == t[row - 1] { ss.same } else { ss.diff };
        if here == grid[row - 1][col - 1] as i64 + pair as i64 {
            return Move::Diagonal;
        }
    }
    if row > 0 {
        assert(grid[row - 1].len() == s.len() + 1);
        if col == 0 || here == grid[row - 1][col] as i64 + ss.indel as i64 {
            return Move::Up;
        }
    }
    Move::Left
}

proof fn lemma_reverse_push(acc: Seq<char>, c: char)
    ensures
        acc.push(c).reverse() == seq![c] + acc.reverse(),
{
    assert(acc.push(c).reverse() =~= seq![c] + acc.reverse());
}

fn reversed(v: &Vec<char>) -> (r: Vec<char>)
    ensures
        r@ == v@.reverse(),
{
    let mut out: Vec<char> = Vec::new();
    let n = v.len();
    let mut k: usize = 0;
    while k < n
        invariant
            n == v.len(),
            k <= n,
            out@ =~= v@.reverse().take(k as int),
        decreases n - k,
    {
        out.push(v[n - 1 - k]);
        k = k + 1;
    }
    assert(out@ =~= v@.reverse());
    out
}

/// Walks `grid` back from its last cell to its origin and returns one optimal
/// alignment: the source and the target, each padded with gaps, source first.
#[verifier::loop_isolation(false)]
pub fn walk_back(ss: &SimpleScoringSystem, grid: &Vec<Vec<i32>>, src: &str, target: &str) -> (r: (
    String,
    String,
))
    requires
        is_score_table(*ss, grid@, src@, target@),
    ensures
        (r.0@, r.1@) == trace(*ss, grid@, src@, target@, src@.len(), target@.len()),
        r.0@.len() == r.1@.len(),
{
    proof {
        lemma_aligned_same_length(*ss, grid@, src@, target@);
    }
    let s = chars_of(src);
    let t = chars_of(target);
    let mut node = AlignmentNode::new(s.len(), t.len());
    let mut upper: Vec<char> = Vec::new();
    let mut left: Vec<char> = Vec::new();
    let ghost whole = trace(*ss, grid@, s@, t@, s@.len(), t@.len());
    while node.a_idx > 0 || node.b_idx > 0
        invariant
            node.a_idx <= s.len(),
            node.b_idx <= t.len(),
            whole.0 == trace(*ss, grid@, s@, t@, node.a_idx as nat, node.b_idx as nat).0 + upper@.reverse(),
            whole.1 == trace(*ss, grid@, s@, t@, node.a_idx as nat, node.b_idx as nat).1 + left@.reverse(),
        decreases node.a_idx + node.b_idx,
    {
        let col = node.a_idx;
        let row = node.b_idx;
        let m = next_move(ss, grid, &s, &t, col, row);
        let ghost p0 = trace(*ss, grid@, s@, t@, col as nat, row as nat);
        let ghost up0 = upper@;
        let ghost left0 = left@;
        match m {
            Move::Diagonal => {
                upper.push(s[col - 1]);
                left.push(t[row - 1]);
                node = AlignmentNode::new(col - 1, row - 1);
            },
            Move::Up => {
                upper.push(GAP);
                left.push(t[row - 1]);
                node = AlignmentNode::new(col, row - 1);
            },
            Move::Left => {
                upper.push(s[col - 1]);
                left.push(GAP);
                node = AlignmentNode::new(col - 1, row);
            },
        }
        proof {
            let q = trace(*ss, grid@, s@, t@, node.a_idx as nat, node.b_idx as nat);
            lemma_reverse_push(up0, upper@.last());
            lemma_reverse_push(left0, left@.last());
            assert(upper@ == up0.push(upper@.last()));
            assert(left@ == left0.push(left@.last()));
            assert(p0.0 == q.0.push(upper@.last()));
            assert(p0.1 == q.1.push(left@.last()));
            assert(whole.0 =~= q.0 + upper@.reverse());
            assert(whole.1 =~= q.1 + left@.reverse());
        }
    }
    assert(whole.0 =~= upper@.reverse());
    assert(whole.1 =~= left@.reverse());
    let a = reversed(&upper);
    let b = reversed(&left);
    (string_of(&a), string_of(&b))
}

/// Best global alignment of `src` against `target`: the table is filled and
/// then walked back from its last cell. Both strings have the same length;
/// when neither input holds the gap character, taking the gaps out gives the
/// inputs back and the columns' rewards add up to the best score.
pub fn nw_align(ss: &SimpleScoringSystem, src: &str, target: &str) -> (r: (String, String))
    requires
        src@.len() < usize::MAX,
        target@.len() < usize::MAX,
        scores_fit(*ss, src@, target@),
    ensures
        exists|grid: Seq<Vec<i32>>|
            is_score_table(*ss, grid, src@, target@) && (r.0@, r.1@) == #[trigger] trace(
                *ss,
                grid,
                src@,
                target@,
                src@.len(),
                target@.len(),
            ),
        r.0@.len() == r.1@.len(),
        !src@.contains(GAP) && !target@.contains(GAP) ==> {
            &&& without_gaps(r.0@) == src@
            &&& without_gaps(r.1@) == target@
            &&& aligned_score(*ss, r.0@, r.1@) == alignment_score(*ss, src@, target@)
        },
{
    let grid = nw_grid(ss, src, target);
    let r = walk_back(ss, &grid, src, target);
    proof {
        if !src@.contains(GAP) && !target@.contains(GAP) {
            lemma_alignment_round_trip(*ss, grid@, src@, target@);
            lemma_alignment_optimal(*ss, grid@, src@, target@);
        }
    }
    r
}

} // verus!
