//! Unit-cost edit distance (Levenshtein), by a full table or by two rolling rows.
use crate::text::chars_of;
use vstd::prelude::*;

verus! {

/// Cost of lining up `x` against `y`: nothing when they are equal, one otherwise.
pub open spec fn sub_cost(x: char, y: char) -> nat {
    if x == y {
        0
    } else {
        1
    }
}

pub open spec fn min3(x: nat, y: nat, z: nat) -> nat {
    if x <= y && x <= z {
        x
    } else if y <= z {
        y
    } else {
        z
    }
}

/// Edit distance between the first `i` characters of `a` and the first `j` of `b`,
/// where inserting, deleting or substituting one character costs one.
pub open spec fn lev(a: Seq<char>, b: Seq<char>, i: nat, j: nat) -> nat
    decreases i + j,
{
    if i == 0 {
        j
    } else if j == 0 {
        i
    } else {
        min3(
            lev(a, b, (i - 1) as nat, j) + 1,
            lev(a, b, i, (j - 1) as nat) + 1,
            lev(a, b, (i - 1) as nat, (j - 1) as nat) + sub_cost(a[i - 1], b[j - 1]),
        )
    }
}

/// Edit distance between the whole of `a` and the whole of `b`.
pub open spec fn edit_distance(a: Seq<char>, b: Seq<char>) -> nat {
    lev(a, b, a.len(), b.len())
}

/// A prefix distance never exceeds the longer of the two prefixes.
pub proof fn lemma_lev_at_most_longer(a: Seq<char>, b: Seq<char>, i: nat, j: nat)
    ensures
        lev(a, b, i, j) <= if i <= j { j } else { i },
    decreases i + j,
{
    if i > 0 && j > 0 {
        lemma_lev_at_most_longer(a, b, (i - 1) as nat, (j - 1) as nat);
    }
}

/// A prefix distance is at least the difference of the two prefix lengths.
pub proof fn lemma_lev_at_least_gap(a: Seq<char>, b: Seq<char>, i: nat, j: nat)
    ensures
        lev(a, b, i, j) + j >= i,
        lev(a, b, i, j) + i >= j,
    decreases i + j,
{
    if i > 0 && j > 0 {
        lemma_lev_at_least_gap(a, b, (i - 1) as nat, j);
        lemma_lev_at_least_gap(a, b, i, (j - 1) as nat);
        lemma_lev_at_least_gap(a, b, (i - 1) as nat, (j - 1) as nat);
    }
}

proof fn lemma_lev_prefix_self(a: Seq<char>, i: nat)
    ensures
        lev(a, a, i, i) == 0,
    decreases i,
{
    if i > 0 {
        lemma_lev_prefix_self(a, (i - 1) as nat);
    }
}

/// A sequence is at distance zero from itself.
pub proof fn lemma_distance_to_self(a: Seq<char>)
    ensures
        edit_distance(a, a) == 0,
{
    lemma_lev_prefix_self(a, a.len());
}

proof fn lemma_lev_prefix_symmetric(a: Seq<char>, b: Seq<char>, i: nat, j: nat)
    ensures
        lev(a, b, i, j) == lev(b, a, j, i),
    decreases i + j,
{
    if i > 0 && j > 0 {
        lemma_lev_prefix_symmetric(a, b, (i - 1) as nat, j);
        lemma_lev_prefix_symmetric(a, b, i, (j - 1) as nat);
        lemma_lev_prefix_symmetric(a, b, (i - 1) as nat, (j - 1) as nat);
    }
}

/// Insertions and deletions cost the same, so the distance does not depend on
/// which sequence is the source.
pub proof fn lemma_distance_symmetric(a: Seq<char>, b: Seq<char>)
    ensures
        edit_distance(a, b) == edit_distance(b, a),
{
    lemma_lev_prefix_symmetric(a, b, a.len(), b.len());
}

/// The distance between the empty sequence and `s`, either way round, is the
/// length of `s`.
pub proof fn lemma_distance_from_empty(s: Seq<char>)
    ensures
        edit_distance(Seq::<char>::empty(), s) == s.len(),
        edit_distance(s, Seq::<char>::empty()) == s.len(),
{
}

proof fn lemma_lev_prefix_triangle(x: Seq<char>, y: Seq<char>, z: Seq<char>, i: nat, j: nat, k: nat)
    ensures
        lev(x, z, i, k) <= lev(x, y, i, j) + lev(y, z, j, k),
    decreases i + j + k,
{
    if i == 0 {
        lemma_lev_at_least_gap(y, z, j, k);
    } else if k == 0 {
        lemma_lev_at_least_gap(x, y, i, j);
    } else if j == 0 {
        lemma_lev_at_most_longer(x, z, i, k);
    } else {
        lemma_lev_prefix_triangle(x, y, z, (i - 1) as nat, j, k);
        lemma_lev_prefix_triangle(x, y, z, i, j, (k - 1) as nat);
        lemma_lev_prefix_triangle(x, y, z, i, (j - 1) as nat, k);
        lemma_lev_prefix_triangle(x, y, z, i, (j - 1) as nat, (k - 1) as nat);
        lemma_lev_prefix_triangle(x, y, z, (i - 1) as nat, (j - 1) as nat, k);
        lemma_lev_prefix_triangle(x, y, z, (i - 1) as nat, (j - 1) as nat, (k - 1) as nat);
    }
}

/// Triangle inequality: going from `a` to `c` by way of `b` is never shorter
/// than going there directly.
pub proof fn lemma_distance_triangle(a: Seq<char>, b: Seq<char>, c: Seq<char>)
    ensures
        edit_distance(a, c) <= edit_distance(a, b) + edit_distance(b, c),
{
    lemma_lev_prefix_triangle(a, b, c, a.len(), b.len(), c.len());
}

fn min_usize(x: usize, y: usize) -> (r: usize)
    ensures
        r == if x <= y { x } else { y },
{
    if x <= y {
        x
    } else {
        y
    }
}

/// Cell `c` of `cur` follows from its left neighbour in `cur` and the two
/// cells above it in `prev`, for the row of character `t_char`.
pub open spec fn unit_step(prev: Seq<usize>, cur: Seq<usize>, a: Seq<char>, t_char: char, c: int) -> bool {
    cur[c] == min3(
        (cur[c - 1] + 1) as nat,
        (prev[c] + 1) as nat,
        (prev[c - 1] + sub_cost(a[c - 1], t_char)) as nat,
    )
}

/// Computes `cur_row[1..=src.len()]` from `prev_row` and `cur_row[0]`: each cell
/// is the cheapest of a deletion from its left, an insertion from above, and a
/// match or substitution from above-left. Every other cell is left as it was.
#[verifier::loop_isolation(false)]
fn fill_row(t_char: char, src: &Vec<char>, prev_row: &Vec<usize>, cur_row: &mut Vec<usize>)
    requires
        prev_row.len() >= src.len() + 1,
        old(cur_row).len() >= src.len() + 1,
        forall|c: int| 0 <= c <= src.len() ==> prev_row[c] < usize::MAX,
    ensures
        final(cur_row).len() == old(cur_row).len(),
        final(cur_row)[0] == old(cur_row)[0],
        forall|c: int| src.len() < c < old(cur_row).len() ==> final(cur_row)[c] == old(cur_row)[c],
        forall|c: int| 1 <= c <= src.len() ==> unit_step(prev_row@, final(cur_row)@, src@, t_char, c),
{
    let mut jj: usize = 0;
    while jj < src.len()
        invariant
            jj <= src.len(),
            cur_row.len() == old(cur_row).len(),
            cur_row[0] == old(cur_row)[0],
            forall|c: int| jj < c < old(cur_row).len() ==> cur_row[c] == old(cur_row)[c],
            forall|c: int| 1 <= c <= jj ==> unit_step(prev_row@, cur_row@, src@, t_char, c),
        decreases src.len() - jj,
    {
        let col = jj + 1;
        let sub: usize = if t_char == src[jj] { 0 } else { 1 };
        // A saturated deletion cost is never the cheapest: the diagonal
        // candidate is at most `usize::MAX`.
        let delete_cost = cur_row[col - 1].saturating_add(1);
        let insert_cost = prev_row[col] + 1;
        let sub_total = prev_row[col - 1] + sub;
        let cell_cost = min_usize(min_usize(delete_cost, insert_cost), sub_total);
        let ghost before = cur_row@;
        cur_row.set(col, cell_cost);
        proof {
            assert(sub_total == prev_row[col - 1] + sub_cost(src@[col - 1], t_char));
            assert(unit_step(prev_row@, cur_row@, src@, t_char, col as int));
            assert forall|c: int| 1 <= c <= col implies unit_step(prev_row@, cur_row@, src@, t_char, c) by {
                if c < col {
                    assert(unit_step(prev_row@, before, src@, t_char, c));
                }
            }
        }
        jj = col;
    }
}

/// A row filled by `fill_row` from row `row - 1` of the distance table, and
/// starting with the right value, is row `row` of that table.
proof fn lemma_filled_row(
    a: Seq<char>,
    b: Seq<char>,
    t_char: char,
    prev: Seq<usize>,
    cur: Seq<usize>,
    row: nat,
    k: nat,
)
    requires
        1 <= row <= b.len(),
        b[row - 1] == t_char,
        k <= a.len(),
        prev.len() >= a.len() + 1,
        cur.len() >= a.len() + 1,
        cur[0] == lev(a, b, 0, row),
        forall|c: int| 0 <= c <= a.len() ==> prev[c] == lev(a, b, c as nat, (row - 1) as nat),
        forall|c: int| 1 <= c <= a.len() ==> unit_step(prev, cur, a, t_char, c),
    ensures
        forall|c: int| 0 <= c <= k ==> cur[c] == lev(a, b, c as nat, row),
    decreases k,
{
    if k > 0 {
        lemma_filled_row(a, b, t_char, prev, cur, row, (k - 1) as nat);
        assert(unit_step(prev, cur, a, t_char, k as int));
    }
}

/// Edit distance between `src` and `target`, keeping only two rows of the table.
pub fn twovec_lev(src: &str, target: &str) -> (r: usize)
    requires
        src@.len() < usize::MAX,
        target@.len() < usize::MAX,
    ensures
        r == edit_distance(src@, target@),
{
    let s = chars_of(src);
    let t = chars_of(target);
    let width = s.len();

    let mut row0: Vec<usize> = Vec::new();
    let mut row1: Vec<usize> = Vec::new();
    let mut k: usize = 0;
    while k <= width
        invariant
            k <= width + 1,
            width == s.len(),
            width < usize::MAX,
            row0.len() == k,
            row1.len() == k,
            forall|c: int| 0 <= c < k ==> row0[c] == c,
        decreases width + 1 - k,
    {
        row0.push(k);
        row1.push(0);
        k = k + 1;
    }

    let mut last_row: usize = 0;
    let mut ii: usize = 0;
    while ii < t.len()
        invariant
            ii <= t.len(),
            s@ == src@,
            t@ == target@,
            width == s.len(),
            width < usize::MAX,
            t.len() < usize::MAX,
            row0.len() == width + 1,
            row1.len() == width + 1,
            last_row == ii % 2,
            ii % 2 == 0 ==> forall|c: int| 0 <= c <= width ==> row0[c] == lev(s@, t@, c as nat, ii as nat),
            ii % 2 == 1 ==> forall|c: int| 0 <= c <= width ==> row1[c] == lev(s@, t@, c as nat, ii as nat),
        decreases t.len() - ii,
    {
        let row = ii + 1;
        if row % 2 == 1 {
            proof {
                assert forall|c: int| 0 <= c <= width implies #[trigger] row0[c] < usize::MAX by {
                    lemma_lev_at_most_longer(s@, t@, c as nat, ii as nat);
                }
            }
            row1.set(0, row);
            fill_row(t[ii], &s, &row0, &mut row1);
            proof {
                lemma_filled_row(s@, t@, t[ii as int], row0@, row1@, row as nat, width as nat);
            }
            last_row = 1;
        } else {
            proof {
                assert forall|c: int| 0 <= c <= width implies #[trigger] row1[c] < usize::MAX by {
                    lemma_lev_at_most_longer(s@, t@, c as nat, ii as nat);
                }
            }
            row0.set(0, row);
            fill_row(t[ii], &s, &row1, &mut row0);
            proof {
                lemma_filled_row(s@, t@, t[ii as int], row1@, row0@, row as nat, width as nat);
            }
            last_row = 0;
        }
        ii = row;
    }

    if last_row == 0 {
        row0[width]
    } else {
        row1[width]
    }
}

/// Edit distance between `src` and `target`, filling the whole table.
pub fn vecvec_lev(src: &str, target: &str) -> (r: usize)
    requires
        src@.len() < usize::MAX,
        target@.len() < usize::MAX,
    ensures
        r == edit_distance(src@, target@),
{
    let s = chars_of(src);
    let t = chars_of(target);
    let width = s.len();
    let height = t.len();

    let mut first: Vec<usize> = Vec::new();
    let mut k: usize = 0;
    while k <= width
        invariant
            k <= width + 1,
            width == s.len(),
            width < usize::MAX,
            first.len() == k,
            forall|c: int| 0 <= c < k ==> first[c] == c,
        decreases width + 1 - k,
    {
        first.push(k);
        k = k + 1;
    }
    let mut grid: Vec<Vec<usize>> = Vec::new();
    grid.push(first);

    let mut row: usize = 1;
    while row <= height
        invariant
            1 <= row <= height + 1,
            s@ == src@,
            t@ == target@,
            width == s.len(),
            height == t.len(),
            width < usize::MAX,
            height < usize::MAX,
            grid.len() == row,
            forall|r: int| 0 <= r < row ==> #[trigger] grid[r].len() == width + 1,
            forall|r: int, c: int|
                0 <= r < row && 0 <= c <= width ==> #[trigger] grid[r][c] == lev(s@, t@, c as nat, r as nat),
        decreases height + 1 - row,
    {
        let t_char = t[row - 1];
        let mut cur: Vec<usize> = Vec::new();
        cur.push(row);
        let mut col: usize = 1;
        while col <= width
            invariant
                1 <= col <= width + 1,
                1 <= row <= height,
                s@ == src@,
                t@ == target@,
                width == s.len(),
                height == t.len(),
                width < usize::MAX,
                height < usize::MAX,
                t_char == t@[row - 1],
                grid.len() == row,
                cur.len() == col,
                forall|r: int| 0 <= r < row ==> #[trigger] grid[r].len() == width + 1,
                forall|r: int, c: int|
                    0 <= r < row && 0 <= c <= width ==> #[trigger] grid[r][c] == lev(s@, t@, c as nat, r as nat),
                forall|c: int| 0 <= c < col ==> cur[c] == lev(s@, t@, c as nat, row as nat),
            decreases width + 1 - col,
        {
            let sub: usize = if t_char == s[col - 1] { 0 } else { 1 };
            proof {
                lemma_lev_at_most_longer(s@, t@, (col - 1) as nat, row as nat);
                lemma_lev_at_most_longer(s@, t@, col as nat, (row - 1) as nat);
                lemma_lev_at_most_longer(s@, t@, (col - 1) as nat, (row - 1) as nat);
            }
            let delete_cost = cur[col - 1] + 1;
            assert(grid[row - 1].len() == width + 1);
            let insert_cost = grid[row - 1][col] + 1;
            let sub_total = grid[row - 1][col - 1] + sub;
            let cell_cost = min_usize(min_usize(delete_cost, insert_cost), sub_total);
            cur.push(cell_cost);
            col = col + 1;
        }
        grid.push(cur);
        row = row + 1;
    }

    assert(grid[height as int].len() == width + 1);
    grid[height][width]
}

/// Weights of an edit-distance cost model: the cost of inserting, deleting and
/// substituting one character. Matching characters cost nothing.
pub struct Differencer {
    pub insert: u32,
    pub delete: u32,
    pub substitution: u32,
}

/// Cost of the cheapest edit script from the first `i` characters of `a` to
/// the first `j` of `b` under `d`: each character of `a` left out costs
/// `delete`, each character of `b` put in costs `insert`, and each character of
/// `a` replaced by a different one of `b` costs `substitution`.
pub open spec fn weighted_lev(d: Differencer, a: Seq<char>, b: Seq<char>, i: nat, j: nat) -> nat
    decreases i + j,
{
    if i == 0 {
        j * (d.insert as nat)
    } else if j == 0 {
        i * (d.delete as nat)
    } else {
        min3(
            weighted_lev(d, a, b, (i - 1) as nat, j) + (d.delete as nat),
            weighted_lev(d, a, b, i, (j - 1) as nat) + (d.insert as nat),
            weighted_lev(d, a, b, (i - 1) as nat, (j - 1) as nat) + if a[i - 1] == b[j - 1] {
                0
            } else {
                d.substitution as nat
            },
        )
    }
}

/// Weighted distance between the whole of `a` and the whole of `b`.
pub open spec fn weighted_distance(d: Differencer, a: Seq<char>, b: Seq<char>) -> nat {
    weighted_lev(d, a, b, a.len(), b.len())
}

/// The largest of the three weights.
pub open spec fn max_weight(d: Differencer) -> nat {
    let m = if d.insert >= d.delete { d.insert } else { d.delete };
    if m >= d.substitution { m as nat } else { d.substitution as nat }
}

/// Every cost in the table of `a` against `b` fits in a `u64`.
pub open spec fn costs_fit(d: Differencer, a: Seq<char>, b: Seq<char>) -> bool {
    (a.len() + b.len()) * max_weight(d) <= u64::MAX
}

proof fn lemma_mul_le(p: nat, q: nat, m: nat)
    requires
        p <= q,
    ensures
        p * m <= q * m,
        (p + 1) * m == p * m + m,
        0 * m == 0,
{
    assert(p * m <= q * m) by (nonlinear_arith)
        requires
            p <= q,
    ;
    assert((p + 1) * m == p * m + m) by (nonlinear_arith);
}

proof fn lemma_weighted_bounded(d: Differencer, a: Seq<char>, b: Seq<char>, i: nat, j: nat)
    ensures
        weighted_lev(d, a, b, i, j) <= (i + j) * max_weight(d),
    decreases i + j,
{
    let m = max_weight(d);
    if i == 0 {
        assert(j * d.insert <= j * m) by (nonlinear_arith)
            requires
                d.insert <= m,
        ;
    } else if j == 0 {
        assert(i * d.delete <= i * m) by (nonlinear_arith)
            requires
                d.delete <= m,
        ;
    } else {
        lemma_weighted_bounded(d, a, b, (i - 1) as nat, j);
        lemma_mul_le((i + j - 1) as nat, (i + j) as nat, m);
    }
}

/// The candidates for cell `(i, j)` fit in a `u64`.
proof fn lemma_weighted_cell_fits(d: Differencer, a: Seq<char>, b: Seq<char>, i: nat, j: nat)
    requires
        1 <= i <= a.len(),
        1 <= j <= b.len(),
        costs_fit(d, a, b),
    ensures
        weighted_lev(d, a, b, (i - 1) as nat, j) + d.delete <= u64::MAX,
        weighted_lev(d, a, b, i, (j - 1) as nat) + d.insert <= u64::MAX,
        weighted_lev(d, a, b, (i - 1) as nat, (j - 1) as nat) + d.substitution <= u64::MAX,
{
    let m = max_weight(d);
    lemma_weighted_bounded(d, a, b, (i - 1) as nat, j);
    lemma_weighted_bounded(d, a, b, i, (j - 1) as nat);
    lemma_weighted_bounded(d, a, b, (i - 1) as nat, (j - 1) as nat);
    lemma_mul_le((i + j - 1) as nat, (i + j) as nat, m);
    lemma_mul_le((i + j - 2) as nat, (i + j - 1) as nat, m);
    lemma_mul_le((i + j) as nat, (a.len() + b.len()) as nat, m);
}

/// A border cell fits in a `u64`.
proof fn lemma_weighted_border_fits(d: Differencer, a: Seq<char>, b: Seq<char>, i: nat, j: nat)
    requires
        i <= a.len(),
        j <= b.len(),
        costs_fit(d, a, b),
    ensures
        weighted_lev(d, a, b, i, j) <= u64::MAX,
{
    lemma_weighted_bounded(d, a, b, i, j);
    lemma_mul_le((i + j) as nat, (a.len() + b.len()) as nat, max_weight(d));
}

proof fn lemma_weighted_prefix_symmetric(d: Differencer, a: Seq<char>, b: Seq<char>, i: nat, j: nat)
    requires
        d.insert == d.delete,
    ensures
        weighted_lev(d, a, b, i, j) == weighted_lev(d, b, a, j, i),
    decreases i + j,
{
    if i > 0 && j > 0 {
        lemma_weighted_prefix_symmetric(d, a, b, (i - 1) as nat, j);
        lemma_weighted_prefix_symmetric(d, a, b, i, (j - 1) as nat);
        lemma_weighted_prefix_symmetric(d, a, b, (i - 1) as nat, (j - 1) as nat);
    }
}

/// When inserting costs as much as deleting, the weighted distance does not
/// depend on which sequence is the source.
pub proof fn lemma_weighted_distance_symmetric(d: Differencer, a: Seq<char>, b: Seq<char>)
    requires
        d.insert == d.delete,
    ensures
        weighted_distance(d, a, b) == weighted_distance(d, b, a),
{
    lemma_weighted_prefix_symmetric(d, a, b, a.len(), b.len());
}

proof fn lemma_unit_weights_prefix(d: Differencer, a: Seq<char>, b: Seq<char>, i: nat, j: nat)
    requires
        d.insert == 1,
        d.delete == 1,
        d.substitution == 1,
    ensures
        weighted_lev(d, a, b, i, j) == lev(a, b, i, j),
    decreases i + j,
{
    if i > 0 && j > 0 {
        lemma_unit_weights_prefix(d, a, b, (i - 1) as nat, j);
        lemma_unit_weights_prefix(d, a, b, i, (j - 1) as nat);
        lemma_unit_weights_prefix(d, a, b, (i - 1) as nat, (j - 1) as nat);
    }
}

/// Under unit weights the weighted distance is the plain edit distance, which
/// both `twovec_lev` and `vecvec_lev` return.
pub proof fn lemma_unit_weights_give_edit_distance(d: Differencer, a: Seq<char>, b: Seq<char>)
    requires
        d.insert == 1,
        d.delete == 1,
        d.substitution == 1,
    ensures
        weighted_distance(d, a, b) == edit_distance(a, b),
{
    lemma_unit_weights_prefix(d, a, b, a.len(), b.len());
}

/// Cell `c` of `cur` follows from its left neighbour in `cur` and the two
/// cells above it in `prev` under the weights of `d`, for the row of `t_char`.
pub open spec fn weighted_step(d: Differencer, prev: Seq<u64>, cur: Seq<u64>, a: Seq<char>, t_char: char, c: int) -> bool {
    cur[c] == min3(
        (cur[c - 1] + d.delete) as nat,
        (prev[c] + d.insert) as nat,
        (prev[c - 1] + if a[c - 1] == t_char {
            0
        } else {
            d.substitution as int
        }) as nat,
    )
}

/// A row filled by `Differencer::fill_row` from row `row - 1` of the weighted
/// table, and starting with the right value, is row `row` of that table.
proof fn lemma_weighted_filled_row(
    d: Differencer,
    a: Seq<char>,
    b: Seq<char>,
    t_char: char,
    prev: Seq<u64>,
    cur: Seq<u64>,
    row: nat,
    k: nat,
)
    requires
        1 <= row <= b.len(),
        b[row - 1] == t_char,
        k <= a.len(),
        prev.len() >= a.len() + 1,
        cur.len() >= a.len() + 1,
        cur[0] == weighted_lev(d, a, b, 0, row),
        forall|c: int| 0 <= c <= a.len() ==> prev[c] == weighted_lev(d, a, b, c as nat, (row - 1) as nat),
        forall|c: int| 1 <= c <= a.len() ==> weighted_step(d, prev, cur, a, t_char, c),
    ensures
        forall|c: int| 0 <= c <= k ==> cur[c] == weighted_lev(d, a, b, c as nat, row),
    decreases k,
{
    if k > 0 {
        lemma_weighted_filled_row(d, a, b, t_char, prev, cur, row, (k - 1) as nat);
        assert(weighted_step(d, prev, cur, a, t_char, k as int));
    }
}

/// Adding a weight to a cell of the previous row stays within `u64`.
proof fn lemma_row_headroom(d: Differencer, a: Seq<char>, b: Seq<char>, prev: Seq<u64>, row: nat)
    requires
        1 <= row <= b.len(),
        costs_fit(d, a, b),
        prev.len() >= a.len() + 1,
        forall|c: int| 0 <= c <= a.len() ==> prev[c] == weighted_lev(d, a, b, c as nat, (row - 1) as nat),
    ensures
        forall|c: int| 1 <= c <= a.len() ==> #[trigger] prev[c] + d.insert <= u64::MAX,
        forall|c: int| 0 <= c < a.len() ==> #[trigger] prev[c] + d.substitution <= u64::MAX,
{
    assert forall|c: int| 1 <= c <= a.len() implies #[trigger] prev[c] + d.insert <= u64::MAX by {
        lemma_weighted_cell_fits(d, a, b, c as nat, row);
    }
    assert forall|c: int| 0 <= c < a.len() implies #[trigger] prev[c] + d.substitution <= u64::MAX by {
        lemma_weighted_cell_fits(d, a, b, (c + 1) as nat, row);
    }
}

proof fn lemma_weighted_prefix_self(d: Differencer, a: Seq<char>, i: nat)
    ensures
        weighted_lev(d, a, a, i, i) == 0,
    decreases i,
{
    if i > 0 {
        lemma_weighted_prefix_self(d, a, (i - 1) as nat);
    }
}

/// Under any weights, a sequence is at distance zero from itself.
pub proof fn lemma_weighted_distance_to_self(d: Differencer, a: Seq<char>)
    ensures
        weighted_distance(d, a, a) == 0,
{
    lemma_weighted_prefix_self(d, a, a.len());
}

fn min_u64(x: u64, y: u64) -> (r: u64)
    ensures
        r == if x <= y { x } else { y },
{
    if x <= y {
        x
    } else {
        y
    }
}

impl Differencer {
    /// The unit cost model: every edit costs one.
    pub fn standard() -> (r: Self)
        ensures
            r.insert == 1,
            r.delete == 1,
            r.substitution == 1,
    {
        Self { insert: 1, delete: 1, substitution: 1 }
    }

    pub fn new(insert: u32, delete: u32, substitution: u32) -> (r: Self)
        ensures
            r.insert == insert,
            r.delete == delete,
            r.substitution == substitution,
    {
        Self { insert, delete, substitution }
    }

    /// Weighted edit distance from `source` to `target`, keeping only two
    /// rows of the table.
    pub fn score(&self, source: &str, target: &str) -> (r: u64)
        requires
            source@.len() < usize::MAX,
            target@.len() < usize::MAX,
            costs_fit(*self, source@, target@),
        ensures
            r == weighted_distance(*self, source@, target@),
    {
        let s = chars_of(source);
        let t = chars_of(target);
        let width = s.len();

        let mut row0: Vec<u64> = Vec::new();
        let mut row1: Vec<u64> = Vec::new();
        row0.push(0);
        row1.push(0);
        let mut k: usize = 1;
        while k <= width
            invariant
                1 <= k <= width + 1,
                width == s.len(),
                width < usize::MAX,
                t@ == target@,
                s@ == source@,
                costs_fit(*self, s@, t@),
                row0.len() == k,
                row1.len() == k,
                forall|c: int| 0 <= c < k ==> row0[c] == weighted_lev(*self, s@, t@, c as nat, 0),
            decreases width + 1 - k,
        {
            proof {
                lemma_weighted_border_fits(*self, s@, t@, k as nat, 0);
                lemma_mul_le((k - 1) as nat, k as nat, self.delete as nat);
            }
            let v = row0[k - 1] + self.delete as u64;
            row0.push(v);
            row1.push(0);
            k = k + 1;
        }

        let mut last_row: usize = 0;
        let mut ii: usize = 0;
        while ii < t.len()
            invariant
                ii <= t.len(),
                s@ == source@,
                t@ == target@,
                width == s.len(),
                width < usize::MAX,
                t.len() < usize::MAX,
                costs_fit(*self, s@, t@),
                row0.len() == width + 1,
                row1.len() == width + 1,
                last_row == ii % 2,
                ii % 2 == 0 ==> forall|c: int|
                    0 <= c <= width ==> row0[c] == weighted_lev(*self, s@, t@, c as nat, ii as nat),
                ii % 2 == 1 ==> forall|c: int|
                    0 <= c <= width ==> row1[c] == weighted_lev(*self, s@, t@, c as nat, ii as nat),
            decreases t.len() - ii,
        {
            let row = ii + 1;
            proof {
                lemma_weighted_border_fits(*self, s@, t@, 0, row as nat);
                lemma_mul_le(ii as nat, row as nat, self.insert as nat);
            }
            if row % 2 == 1 {
                let first = row0[0] + self.insert as u64;
                assert(row0[0] == weighted_lev(*self, s@, t@, 0, ii as nat));
                row1.set(0, first);
                proof {
                    lemma_row_headroom(*self, s@, t@, row0@, row as nat);
                }
                self.fill_row(t[ii], &s, &row0, &mut row1);
                proof {
                    lemma_weighted_filled_row(*self, s@, t@, t[ii as int], row0@, row1@, row as nat, width as nat);
                }
                last_row = 1;
            } else {
                let first = row1[0] + self.insert as u64;
                assert(row1[0] == weighted_lev(*self, s@, t@, 0, ii as nat));
                row0.set(0, first);
                proof {
                    lemma_row_headroom(*self, s@, t@, row1@, row as nat);
                }
                self.fill_row(t[ii], &s, &row1, &mut row0);
                proof {
                    lemma_weighted_filled_row(*self, s@, t@, t[ii as int], row1@, row0@, row as nat, width as nat);
                }
                last_row = 0;
            }
            ii = row;
        }

        if last_row == 0 {
            row0[width]
        } else {
            row1[width]
        }
    }

    /// Computes `cur_row[1..=src.len()]` from `prev_row` and `cur_row[0]`: each
    /// cell is the cheapest of a deletion from its left, an insertion from
    /// above, and a match or substitution from above-left, under these weights.
    /// Every other cell is left as it was.
    #[verifier::loop_isolation(false)]
    fn fill_row(&self, t_char: char, src: &Vec<char>, prev_row: &Vec<u64>, cur_row: &mut Vec<u64>)
        requires
            prev_row.len() >= src.len() + 1,
            old(cur_row).len() >= src.len() + 1,
            forall|c: int| 1 <= c <= src.len() ==> prev_row[c] + self.insert <= u64::MAX,
            forall|c: int| 0 <= c < src.len() ==> prev_row[c] + self.substitution <= u64::MAX,
        ensures
            final(cur_row).len() == old(cur_row).len(),
            final(cur_row)[0] == old(cur_row)[0],
            forall|c: int| src.len() < c < old(cur_row).len() ==> final(cur_row)[c] == old(cur_row)[c],
            forall|c: int|
                1 <= c <= src.len() ==> weighted_step(*self, prev_row@, final(cur_row)@, src@, t_char, c),
    {
        let mut jj: usize = 0;
        while jj < src.len()
            invariant
                jj <= src.len(),
                cur_row.len() == old(cur_row).len(),
                cur_row[0] == old(cur_row)[0],
                forall|c: int| jj < c < old(cur_row).len() ==> cur_row[c] == old(cur_row)[c],
                forall|c: int| 1 <= c <= jj ==> weighted_step(*self, prev_row@, cur_row@, src@, t_char, c),
            decreases src.len() - jj,
        {
            let col = jj + 1;
            let sub: u64 = if t_char == src[jj] { 0 } else { self.substitution as u64 };
            // A saturated deletion cost is never the cheapest: the diagonal
            // candidate is at most `u64::MAX`.
            let delete_cost = cur_row[col - 1].saturating_add(self.delete as u64);
            let insert_cost = prev_row[col] + self.insert as u64;
            let sub_total = prev_row[col - 1] + sub;
            let cell_cost = min_u64(min_u64(delete_cost, insert_cost), sub_total);
            let ghost before = cur_row@;
            cur_row.set(col, cell_cost);
            proof {
                assert(weighted_step(*self, prev_row@, cur_row@, src@, t_char, col as int));
                assert forall|c: int| 1 <= c <= col implies weighted_step(
                    *self,
                    prev_row@,
                    cur_row@,
                    src@,
                    t_char,
                    c,
                ) by {
                    if c < col {
                        assert(weighted_step(*self, prev_row@, before, src@, t_char, c));
                    }
                }
            }
            jj = col;
        }
    }
}

} // verus!
