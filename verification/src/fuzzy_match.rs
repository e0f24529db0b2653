//! Approximate-substring scoring between a query and a candidate path.
//!
//! The score is a local-alignment value over a matrix of `(|query|+1) ×
//! (|candidate|+1)` cells, walked row-major with a running gap counter that
//! resets on a byte match and grows on a mismatch. A candidate one of whose
//! segments equals the query byte-for-byte short-circuits to `i32::MAX`.

use vstd::prelude::*;

use crate::byte_storage::segments_of;
use crate::byte_storage::FilePath;

verus! {

pub const GAP_PENALTY: i32 = 20;

pub const BONUS_FIRST_LETTER: i32 = 20;

pub const BONUS_RIGHT_LETTER: i32 = 10;

/// Saturation point for the executable gap counter. Once the true gap is
/// this long, every gap-penalised candidate value is negative and clamped,
/// so values beyond it need not be distinguished.
const GAP_CAP: i64 = 200000000;

pub open spec fn max2(a: int, b: int) -> int {
    if a >= b {
        a
    } else {
        b
    }
}

pub open spec fn max4(a: int, b: int, c: int, d: int) -> int {
    max2(max2(a, b), max2(c, d))
}

/// The gap counter after the cell in row `r`, column `j` is processed.
/// Cells are processed row-major; the counter resets to zero on a byte
/// match and grows by one on a mismatch.
pub open spec fn gap_after(q: Seq<u8>, c: Seq<u8>, r: int, j: int) -> int
    decreases r, j,
{
    if r <= 0 || j <= 0 {
        0
    } else {
        let before: int = if j > 1 {
            gap_after(q, c, r, j - 1)
        } else {
            gap_after(q, c, r - 1, c.len() as int)
        };
        if q[r - 1] == c[j - 1] {
            0
        } else {
            before + 1
        }
    }
}

/// The value of the scoring-matrix cell in row `r`, column `j`;
/// zero on the top and left borders.
pub open spec fn cell(q: Seq<u8>, c: Seq<u8>, r: int, j: int) -> int
    decreases r, j,
{
    if r <= 0 || j <= 0 {
        0
    } else {
        let g = gap_after(q, c, r, j);
        let diag = cell(q, c, r - 1, j - 1);
        let m = if q[r - 1] == c[j - 1] {
            diag + 10 + (if r == 1 {
                20int
            } else {
                0int
            })
        } else {
            diag - 20
        };
        let del = cell(q, c, r - 1, j) - 20 * g;
        let ins = cell(q, c, r, j - 1) - 20 * g;
        max4(0, m, del, ins)
    }
}

/// The largest cell value among the cells up to row `r`, column `j` in
/// row-major order, and zero.
pub open spec fn best(q: Seq<u8>, c: Seq<u8>, r: int, j: int) -> int
    decreases r, j,
{
    if r <= 0 || j <= 0 {
        0
    } else {
        let prev = if j > 1 {
            best(q, c, r, j - 1)
        } else {
            best(q, c, r - 1, c.len() as int)
        };
        max2(prev, cell(q, c, r, j))
    }
}

/// The matrix score: the largest cell value, or zero for an empty query or
/// candidate.
pub open spec fn matrix_score(q: Seq<u8>, c: Seq<u8>) -> int {
    if q.len() == 0 || c.len() == 0 {
        0
    } else {
        best(q, c, q.len() as int, c.len() as int)
    }
}

/// Some segment of the candidate equals the query byte-for-byte.
pub open spec fn has_instant_match(q: Seq<u8>, c: Seq<u8>) -> bool {
    exists|i: int| 0 <= i < segments_of(c).len() && segments_of(c)[i] == q
}

/// The full score of `q` against candidate `c`.
pub open spec fn score_of(q: Seq<u8>, c: Seq<u8>) -> int {
    if has_instant_match(q, c) {
        i32::MAX as int
    } else {
        matrix_score(q, c)
    }
}

/// The gap counter never goes negative.
proof fn lemma_gap_nonneg(q: Seq<u8>, c: Seq<u8>, r: int, j: int)
    ensures
        gap_after(q, c, r, j) >= 0,
    decreases r, j,
{
    if r > 0 && j > 0 {
        if j > 1 {
            lemma_gap_nonneg(q, c, r, j - 1);
        } else {
            lemma_gap_nonneg(q, c, r - 1, c.len() as int);
        }
    }
}

/// Every cell is non-negative and grows by at most the two bonuses per row.
proof fn lemma_cell_bounds(q: Seq<u8>, c: Seq<u8>, r: int, j: int)
    requires
        r >= 0,
    ensures
        0 <= cell(q, c, r, j) <= 30 * r,
    decreases r, j,
{
    if r > 0 && j > 0 {
        lemma_gap_nonneg(q, c, r, j);
        lemma_cell_bounds(q, c, r - 1, j - 1);
        lemma_cell_bounds(q, c, r - 1, j);
        lemma_cell_bounds(q, c, r, j - 1);
    }
}

/// The running maximum is non-negative and bounded like the cells.
proof fn lemma_best_bounds(q: Seq<u8>, c: Seq<u8>, r: int, j: int)
    requires
        r >= 0,
    ensures
        0 <= best(q, c, r, j) <= 30 * r,
    decreases r, j,
{
    if r > 0 && j > 0 {
        lemma_cell_bounds(q, c, r, j);
        if j > 1 {
            lemma_best_bounds(q, c, r, j - 1);
        } else {
            lemma_best_bounds(q, c, r - 1, c.len() as int);
        }
    }
}

/// Every scored cell and the overall score are non-negative.
pub proof fn lemma_score_nonneg(q: Seq<u8>, c: Seq<u8>)
    ensures
        score_of(q, c) >= 0,
        forall|r: int, j: int| r >= 0 ==> 0 <= #[trigger] cell(q, c, r, j),
{
    if !has_instant_match(q, c) && q.len() > 0 && c.len() > 0 {
        lemma_best_bounds(q, c, q.len() as int, c.len() as int);
    }
    assert forall|r: int, j: int| r >= 0 implies 0 <= #[trigger] cell(q, c, r, j) by {
        lemma_cell_bounds(q, c, r, j);
    }
}

/// A candidate with a segment equal to the query scores `i32::MAX`.
pub proof fn lemma_instant_match_score(q: Seq<u8>, c: Seq<u8>)
    requires
        has_instant_match(q, c),
    ensures
        score_of(q, c) == i32::MAX as int,
{
}

/// Appending bytes that begin a new segment to a candidate with an instant
/// match does not reduce the score: the longer candidate still scores
/// `i32::MAX`.
pub proof fn lemma_instant_match_kept_by_new_segment(q: Seq<u8>, c: Seq<u8>, d: Seq<u8>)
    requires
        has_instant_match(q, c),
        d.len() > 0,
        crate::byte_storage::is_sep(d[0]),
    ensures
        score_of(q, c + d) == i32::MAX as int,
        score_of(q, c + d) >= score_of(q, c),
{
    crate::byte_storage::lemma_segments_concat_at_sep(c, d);
    let i = choose|i: int| 0 <= i < segments_of(c).len() && segments_of(c)[i] == q;
    assert(segments_of(c + d)[i] == segments_of(c)[i]);
    assert(has_instant_match(q, c + d));
}

/// Byte-for-byte equality of two byte vectors.
fn bytes_equal(a: &Vec<u8>, b: &Vec<u8>) -> (r: bool)
    ensures
        r <==> a@ == b@,
{
    if a.len() != b.len() {
        return false;
    }
    let mut i: usize = 0;
    while i < a.len()
        invariant
            a@.len() == b@.len(),
            0 <= i <= a@.len(),
            forall|k: int| 0 <= k < i ==> a@[k] == b@[k],
        decreases a@.len() - i,
    {
        if a[i] != b[i] {
            return false;
        }
        i = i + 1;
    }
    proof {
        assert(a@ =~= b@);
    }
    true
}

/// Computes scores between a query and candidate paths, reusing two rows of
/// the scoring matrix across calls.
pub struct FuzzyMatcher {
    prev_row: Vec<i32>,
    cur_row: Vec<i32>,
}

impl FuzzyMatcher {
    pub fn new() -> (r: Self) {
        FuzzyMatcher { prev_row: Vec::new(), cur_row: Vec::new() }
    }

    /// `Some(i32::MAX)` exactly when a segment of the candidate equals the
    /// query byte-for-byte.
    pub fn instant_match(&self, input: &Vec<u8>, to_match: &FilePath) -> (r: Option<i32>)
        ensures
            r.is_some() <==> has_instant_match(input@, to_match@),
            r.is_some() ==> r == Some(i32::MAX),
    {
        let segs = to_match.segments();
        let mut i: usize = 0;
        while i < segs.len()
            invariant
                0 <= i <= segs@.len(),
                segs@.len() == segments_of(to_match@).len(),
                forall|j: int| 0 <= j < segs@.len() ==> #[trigger] segs@[j]@ == segments_of(
                    to_match@,
                )[j],
                forall|j: int| 0 <= j < i ==> #[trigger] segments_of(to_match@)[j] != input@,
            decreases segs@.len() - i,
        {
            if bytes_equal(&segs[i], input) {
                return Some(i32::MAX);
            }
            i = i + 1;
        }
        None
    }

    /// The score of `input` against `to_match`: `i32::MAX` on an instant
    /// match, else the largest cell of the scoring matrix.
    pub fn smith_waterman(&mut self, input: &Vec<u8>, to_match: &FilePath) -> (score: i32)
        requires
            30 * input@.len() <= i32::MAX as int,
            to_match@.len() < usize::MAX,
        ensures
            score == score_of(input@, to_match@),
    {
        if let Some(points) = self.instant_match(input, to_match) {
            return points;
        }
        let ghost q = input@;
        let ghost cnd = to_match@;
        let path = to_match.path();
        let rlen = input.len();
        let tlen = path.len();
        if rlen == 0 || tlen == 0 {
            return 0;
        }
        self.prev_row.clear();
        self.prev_row.resize(tlen + 1, 0);
        let mut g: i64 = 0;
        let mut mx: i32 = 0;
        let mut r: usize = 1;
        while r <= rlen
            invariant
                1 <= r <= rlen + 1,
                rlen == q.len(),
                tlen == cnd.len(),
                rlen >= 1,
                tlen >= 1,
                30 * q.len() <= i32::MAX as int,
                tlen < usize::MAX,
                input@ == q,
                path@ == cnd,
                self.prev_row@.len() == tlen + 1,
                forall|k: int| 0 <= k <= tlen ==> #[trigger] self.prev_row@[k] == cell(
                    q,
                    cnd,
                    r - 1,
                    k,
                ),
                g == gap_capped(q, cnd, r - 1, tlen as int),
                mx == best(q, cnd, r - 1, tlen as int),
            decreases rlen + 1 - r,
        {
            self.cur_row.clear();
            self.cur_row.push(0);
            let mut j: usize = 1;
            while j <= tlen
                invariant
                    1 <= j <= tlen + 1,
                    1 <= r <= rlen,
                    rlen == q.len(),
                    tlen == cnd.len(),
                    30 * q.len() <= i32::MAX as int,
                    tlen < usize::MAX,
                    input@ == q,
                    path@ == cnd,
                    self.prev_row@.len() == tlen + 1,
                    forall|k: int| 0 <= k <= tlen ==> #[trigger] self.prev_row@[k] == cell(
                        q,
                        cnd,
                        r - 1,
                        k,
                    ),
                    self.cur_row@.len() == j,
                    forall|k: int| 0 <= k < j ==> #[trigger] self.cur_row@[k] == cell(
                        q,
                        cnd,
                        r as int,
                        k,
                    ),
                    g == if j == 1 {
                        gap_capped(q, cnd, r - 1, tlen as int)
                    } else {
                        gap_capped(q, cnd, r as int, j - 1)
                    },
                    mx == if j == 1 {
                        best(q, cnd, r - 1, tlen as int)
                    } else {
                        best(q, cnd, r as int, j - 1)
                    },
                decreases tlen + 1 - j,
            {
                proof {
                    lemma_gap_nonneg(q, cnd, r as int, j as int);
                    lemma_gap_nonneg(q, cnd, r as int, j - 1);
                    lemma_gap_nonneg(q, cnd, r - 1, tlen as int);
                    lemma_cell_bounds(q, cnd, r - 1, j - 1);
                    lemma_cell_bounds(q, cnd, r - 1, j as int);
                    lemma_cell_bounds(q, cnd, r as int, j - 1);
                    lemma_cell_bounds(q, cnd, r as int, j as int);
                    lemma_best_bounds(q, cnd, r - 1, tlen as int);
                    lemma_best_bounds(q, cnd, r as int, j - 1);
                }
                let diag = self.prev_row[j - 1];
                let above = self.prev_row[j];
                let left = self.cur_row[j - 1];
                let m: i64;
                if input[r - 1] == path[j - 1] {
                    g = 0;
                    m = diag as i64 + 10 + (if r == 1 {
                        20i64
                    } else {
                        0i64
                    });
                } else {
                    if g < GAP_CAP {
                        g = g + 1;
                    }
                    m = diag as i64 - 20;
                }
                proof {
                    assert(g == gap_capped(q, cnd, r as int, j as int));
                }
                let del: i64 = above as i64 - 20 * g;
                let ins: i64 = left as i64 - 20 * g;
                let mut v: i64 = 0;
                if m > v {
                    v = m;
                }
                if del > v {
                    v = del;
                }
                if ins > v {
                    v = ins;
                }
                proof {
                    let gt = gap_after(q, cnd, r as int, j as int);
                    let delt = cell(q, cnd, r - 1, j as int) - 20 * gt;
                    let inst = cell(q, cnd, r as int, j - 1) - 20 * gt;
                    if gt > GAP_CAP {
                        assert(g == GAP_CAP);
                        assert(delt < 0 && del < 0 && inst < 0 && ins < 0);
                    }
                    assert(v == cell(q, cnd, r as int, j as int));
                }
                let cv = v as i32;
                self.cur_row.push(cv);
                if cv > mx {
                    mx = cv;
                }
                proof {
                    assert(mx == best(q, cnd, r as int, j as int));
                }
                j = j + 1;
            }
            core::mem::swap(&mut self.prev_row, &mut self.cur_row);
            r = r + 1;
        }
        mx
    }
}

/// The true gap counter, saturated at `GAP_CAP`.
spec fn gap_capped(q: Seq<u8>, c: Seq<u8>, r: int, j: int) -> int {
    if gap_after(q, c, r, j) > GAP_CAP {
        GAP_CAP as int
    } else {
        gap_after(q, c, r, j)
    }
}

} // verus!
