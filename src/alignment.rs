use vstd::prelude::*;

verus! {

/// One banded local-alignment problem: a window, a tiled pattern, the
/// scoring weights and the band radius.
pub struct AlignProblem {
    pub window: Seq<u8>,
    pub pattern: Seq<u8>,
    pub match_score: int,
    pub mismatch_penalty: int,
    pub gap_penalty: int,
    pub band: int,
}

pub open spec fn align_problem(
    window: Seq<u8>,
    pattern: Seq<u8>,
    match_score: i32,
    mismatch_penalty: i32,
    gap_penalty: i32,
    band: usize,
) -> AlignProblem {
    AlignProblem {
        window,
        pattern,
        match_score: match_score as int,
        mismatch_penalty: mismatch_penalty as int,
        gap_penalty: gap_penalty as int,
        band: band as int,
    }
}

/// Saturates a score to the range of `i32`.
pub open spec fn clamp_i32(x: int) -> int {
    if x > i32::MAX {
        i32::MAX as int
    } else if x < i32::MIN {
        i32::MIN as int
    } else {
        x
    }
}

pub open spec fn max_int(a: int, b: int) -> int {
    if a >= b {
        a
    } else {
        b
    }
}

pub open spec fn min_int(a: int, b: int) -> int {
    if a <= b {
        a
    } else {
        b
    }
}

/// Expected window column of pattern row `i`: `i * n / m` rounded to the
/// nearest integer, halves rounded up.
pub open spec fn diag_col(i: int, n: int, m: int) -> int {
    (i * n) / m + if 2 * ((i * n) % m) >= m {
        1int
    } else {
        0int
    }
}

/// Window column (1-based) of band offset `b` in pattern row `i`.
pub open spec fn col_of(a: AlignProblem, i: int, b: int) -> int {
    diag_col(i, a.window.len() as int, a.pattern.len() as int) - a.band + b
}

/// Whether `(i, b)` is a grid position: a pattern row and a band offset.
pub open spec fn is_cell(a: AlignProblem, i: int, b: int) -> bool {
    1 <= i <= a.pattern.len() && 0 <= b <= 2 * a.band
}

/// Whether the band cell `(i, b)` falls on a column of the window.
pub open spec fn in_band(a: AlignProblem, i: int, b: int) -> bool {
    &&& is_cell(a, i, b)
    &&& 1 <= col_of(a, i, b) <= a.window.len()
}

/// Score of band cell `(i, b)`. The cell reads the previous row at the same
/// band offset and its left neighbour in the current row; cells off the band
/// or off the window score 0.
pub open spec fn cell(a: AlignProblem, i: int, b: int) -> int
    decreases i, b,
{
    if i <= 0 || b < 0 || !in_band(a, i, b) {
        0
    } else {
        let c = col_of(a, i, b);
        let prev = cell(a, i - 1, b);
        let diag = if a.pattern[i - 1] == a.window[c - 1] {
            clamp_i32(prev + a.match_score)
        } else {
            clamp_i32(prev - a.mismatch_penalty)
        };
        let left = if b > 0 {
            clamp_i32(cell(a, i, b - 1) - a.gap_penalty)
        } else {
            i32::MIN as int
        };
        let up = clamp_i32(prev - a.gap_penalty);
        max_int(0, max_int(diag, max_int(left, up)))
    }
}

/// Row-major scan order over the grid.
pub open spec fn before(i1: int, b1: int, i2: int, b2: int) -> bool {
    i1 < i2 || (i1 == i2 && b1 < b2)
}

/// `(i, b)` is a cell scanned before `(li, lb)` that scores `best` at
/// column `col`, and every cell scanned before it scores less.
pub open spec fn first_best_at(
    a: AlignProblem,
    best: int,
    col: int,
    li: int,
    lb: int,
    i: int,
    b: int,
) -> bool {
    &&& is_cell(a, i, b)
    &&& before(i, b, li, lb)
    &&& cell(a, i, b) == best
    &&& col == col_of(a, i, b)
    &&& forall|i2: int, b2: int|
        is_cell(a, i2, b2) && before(i2, b2, i, b) ==> #[trigger] cell(a, i2, b2) < best
}

/// `best` is the largest score among the cells scanned before `(li, lb)`, and
/// `col` the column of the first cell that reaches it (0 when nothing scores
/// above 0).
pub open spec fn best_before(a: AlignProblem, best: int, col: int, li: int, lb: int) -> bool {
    &&& forall|i: int, b: int|
        is_cell(a, i, b) && before(i, b, li, lb) ==> #[trigger] cell(a, i, b) <= best
    &&& ((best == 0 && col == 0) || (best > 0 && exists|i: int, b: int|
        #[trigger] first_best_at(a, best, col, li, lb, i, b)))
}

/// The cell that witnesses a positive `best_before`.
pub open spec fn first_best_cell(a: AlignProblem, best: int, col: int, li: int, lb: int) -> (
    int,
    int,
) {
    choose|i: int, b: int| #[trigger] first_best_at(a, best, col, li, lb, i, b)
}

/// `best` is the best local score of the whole band, `col` the column where
/// it is first reached.
pub open spec fn best_cell(a: AlignProblem, best: int, col: int) -> bool {
    best_before(a, best, col, a.pattern.len() + 1int, 0)
}

/// Start of the reported span: at most `band + 11` columns before the best
/// column, never below 0.
pub open spec fn span_start(a: AlignProblem, col: int) -> int {
    col - min_int(col, a.band + 11)
}

/// The aligner's result: best score, span start and span end (the best column).
pub open spec fn local_alignment(a: AlignProblem) -> (int, int, int) {
    let bc = choose|bc: (int, int)| best_cell(a, bc.0, bc.1);
    (bc.0, span_start(a, bc.1), bc.1)
}

/// The best score and its column are determined by the problem.
pub proof fn lemma_best_cell_unique(a: AlignProblem, x1: int, c1: int, x2: int, c2: int)
    requires
        best_cell(a, x1, c1),
        best_cell(a, x2, c2),
    ensures
        x1 == x2,
        c1 == c2,
{
    let li = a.pattern.len() + 1int;
    if x1 > 0 && x2 > 0 {
        let (i1, b1) = first_best_cell(a, x1, c1, li, 0);
        let (i2, b2) = first_best_cell(a, x2, c2, li, 0);
        assert(cell(a, i1, b1) <= x2);
        assert(cell(a, i2, b2) <= x1);
        if before(i1, b1, i2, b2) {
            assert(cell(a, i1, b1) < x2);
        } else if before(i2, b2, i1, b1) {
            assert(cell(a, i2, b2) < x1);
        }
    } else if x1 > 0 {
        let (i1, b1) = first_best_cell(a, x1, c1, li, 0);
        assert(cell(a, i1, b1) <= x2);
    } else if x2 > 0 {
        let (i2, b2) = first_best_cell(a, x2, c2, li, 0);
        assert(cell(a, i2, b2) <= x1);
    }
}

/// Every pair that meets `best_cell` is the aligner's result.
pub proof fn lemma_local_alignment(a: AlignProblem, best: int, col: int)
    requires
        best_cell(a, best, col),
    ensures
        local_alignment(a) == (best, span_start(a, col), col),
{
    let bc = choose|bc: (int, int)| best_cell(a, bc.0, bc.1);
    assert(best_cell(a, (best, col).0, (best, col).1));
    lemma_best_cell_unique(a, bc.0, bc.1, best, col);
}

pub(crate) fn clamp_to_i32(x: i64) -> (r: i32)
    ensures
        r == clamp_i32(x as int),
{
    if x > i32::MAX as i64 {
        i32::MAX
    } else if x < i32::MIN as i64 {
        i32::MIN
    } else {
        x as i32
    }
}

/// Rounded expected column of row `i` in a window of `n` columns for a
/// pattern of `m` rows.
fn expected_column(i: usize, n: usize, m: usize) -> (r: usize)
    requires
        1 <= i <= m,
    ensures
        r == diag_col(i as int, n as int, m as int),
        r <= n,
{
    assert(usize::MAX <= u64::MAX);
    let ghost prod = (i as int) * (n as int);
    assert(prod <= u128::MAX) by (nonlinear_arith)
        requires
            prod == (i as int) * (n as int),
            i <= u64::MAX,
            n <= u64::MAX,
    ;
    let p: u128 = (i as u128) * (n as u128);
    let q: u128 = p / (m as u128);
    let rem: u128 = p % (m as u128);
    assert(q <= n) by (nonlinear_arith)
        requires
            q == prod / (m as int),
            prod == (i as int) * (n as int),
            i <= m,
            m >= 1,
            n >= 0,
    ;
    if 2 * rem >= m as u128 {
        assert(q < n) by (nonlinear_arith)
            requires
                q == prod / (m as int),
                rem == prod % (m as int),
                2 * rem >= m,
                prod == (i as int) * (n as int),
                i <= m,
                m >= 1,
                n >= 0,
        ;
        (q + 1) as usize
    } else {
        q as usize
    }
}

/// Banded Smith-Waterman local alignment of `pattern_repeated` against
/// `window_seq`. Returns `(best_score, start, end)`: the best local score,
/// and a span of the window ending at the column of the first best cell and
/// starting at most `band + 11` columns before it.
pub fn banded_smith_waterman(
    window_seq: &[u8],
    pattern_repeated: &[u8],
    match_score: i32,
    mismatch_penalty: i32,
    gap_penalty: i32,
    band: usize,
) -> (r: (i32, usize, usize))
    requires
        window_seq@.len() == 0 || pattern_repeated@.len() == 0 || band < usize::MAX / 2,
    ensures
        (r.0 as int, r.1 as int, r.2 as int) == local_alignment(
            align_problem(
                window_seq@,
                pattern_repeated@,
                match_score,
                mismatch_penalty,
                gap_penalty,
                band,
            ),
        ),
        best_cell(
            align_problem(
                window_seq@,
                pattern_repeated@,
                match_score,
                mismatch_penalty,
                gap_penalty,
                band,
            ),
            r.0 as int,
            r.2 as int,
        ),
        r.0 >= 0,
        r.1 <= r.2 <= window_seq@.len(),
        r.1 as int == r.2 - min_int(r.2 as int, band + 11),
        window_seq@.len() == 0 || pattern_repeated@.len() == 0 ==> r == (0i32, 0usize, 0usize),
{
    let ghost a = align_problem(
        window_seq@,
        pattern_repeated@,
        match_score,
        mismatch_penalty,
        gap_penalty,
        band,
    );
    let n = window_seq.len();
    let m = pattern_repeated.len();
    if n == 0 || m == 0 {
        assert forall|i: int, b: int| is_cell(a, i, b) implies #[trigger] cell(a, i, b) <= 0 by {
            assert(!in_band(a, i, b));
        }
        proof {
            lemma_local_alignment(a, 0, 0);
        }
        return (0, 0, 0);
    }
    let band_width = 2 * band + 1;
    let mut dp_prev: Vec<i32> = vec![0i32; band_width];
    let mut dp_cur: Vec<i32> = vec![0i32; band_width];
    let mut best_score: i32 = 0;
    let mut best_j: usize = 0;

    let mut row: usize = 0;
    while row < m
        invariant
            0 <= row <= m,
            m == pattern_repeated@.len(),
            n == window_seq@.len(),
            n >= 1,
            band_width == 2 * band + 1,
            a == align_problem(
                window_seq@,
                pattern_repeated@,
                match_score,
                mismatch_penalty,
                gap_penalty,
                band,
            ),
            dp_prev@.len() == band_width,
            dp_cur@.len() == band_width,
            forall|b: int| 0 <= b < band_width ==> #[trigger] dp_prev@[b] == cell(a, row as int, b),
            best_before(a, best_score as int, best_j as int, row + 1, 0),
            0 <= best_j <= n,
        decreases m - row,
    {
        let i = row + 1;
        let diag = expected_column(i, n, m);
        let mut b: usize = 0;
        while b < band_width
            invariant
                1 <= i <= m,
                m == pattern_repeated@.len(),
                n == window_seq@.len(),
                band_width == 2 * band + 1,
                diag == diag_col(i as int, n as int, m as int),
                diag <= n,
                0 <= b <= band_width,
                a == align_problem(
                    window_seq@,
                    pattern_repeated@,
                    match_score,
                    mismatch_penalty,
                    gap_penalty,
                    band,
                ),
                dp_prev@.len() == band_width,
                dp_cur@.len() == band_width,
                forall|k: int| 0 <= k < band_width ==> #[trigger] dp_prev@[k] == cell(a, i - 1, k),
                forall|k: int| 0 <= k < b ==> #[trigger] dp_cur@[k] == cell(a, i as int, k),
                best_before(a, best_score as int, best_j as int, i as int, b as int),
                0 <= best_j <= n,
            decreases band_width - b,
        {
            // The column of this band offset, if it lies on the window.
            let mut col: usize = 0;
            if b >= band {
                let off = b - band;
                if off <= n - diag {
                    col = diag + off;
                }
            } else {
                let back = band - b;
                if diag > back {
                    col = diag - back;
                }
            }
            assert(col != 0 <==> in_band(a, i as int, b as int));
            assert(col != 0 ==> col == col_of(a, i as int, b as int));
            let val: i32;
            if col == 0 {
                val = 0;
            } else {
                let prev = dp_prev[b];
                let step: i64 = if pattern_repeated[i - 1] == window_seq[col - 1] {
                    prev as i64 + match_score as i64
                } else {
                    prev as i64 - mismatch_penalty as i64
                };
                let diag_score = clamp_to_i32(step);
                let left: i32 = if b > 0 {
                    clamp_to_i32(dp_cur[b - 1] as i64 - gap_penalty as i64)
                } else {
                    i32::MIN
                };
                let up = clamp_to_i32(prev as i64 - gap_penalty as i64);
                let mut v: i32 = 0;
                if diag_score > v {
                    v = diag_score;
                }
                if left > v {
                    v = left;
                }
                if up > v {
                    v = up;
                }
                val = v;
            }
            assert(val == cell(a, i as int, b as int));
            dp_cur.set(b, val);
            let ghost old_best = best_score as int;
            let ghost old_col = best_j as int;
            if val > best_score {
                best_score = val;
                best_j = col;
            }
            proof {
                let bi = i as int;
                let bb = b as int;
                assert forall|i2: int, b2: int|
                    is_cell(a, i2, b2) && before(i2, b2, bi, bb + 1) implies #[trigger] cell(
                        a,
                        i2,
                        b2,
                    ) <= best_score as int by {
                    if before(i2, b2, bi, bb) {
                    } else {
                        assert(i2 == bi && b2 == bb);
                    }
                }
                if val > old_best {
                    assert forall|i2: int, b2: int|
                        is_cell(a, i2, b2) && before(i2, b2, bi, bb) implies #[trigger] cell(
                            a,
                            i2,
                            b2,
                        ) < best_score as int by {}
                    assert(first_best_at(a, best_score as int, best_j as int, bi, bb + 1, bi, bb));
                } else if old_best > 0 {
                    let (wi, wb) = first_best_cell(a, old_best, old_col, bi, bb);
                    assert(first_best_at(a, best_score as int, best_j as int, bi, bb + 1, wi, wb));
                }
            }
            b = b + 1;
        }
        proof {
            let bi = i as int;
            assert forall|i2: int, b2: int|
                is_cell(a, i2, b2) && before(i2, b2, bi + 1, 0) implies #[trigger] cell(
                    a,
                    i2,
                    b2,
                ) <= best_score as int by {
                assert(before(i2, b2, bi, band_width as int));
            }
            if best_score > 0 {
                let (wi, wb) = first_best_cell(
                    a,
                    best_score as int,
                    best_j as int,
                    bi,
                    band_width as int,
                );
                assert(first_best_at(a, best_score as int, best_j as int, bi + 1, 0, wi, wb));
            }
        }
        let tmp = dp_prev;
        dp_prev = dp_cur;
        dp_cur = tmp;
        row = row + 1;
    }

    // Walk back from the best column by at most band + 11 columns.
    let mut start_j = best_j;
    while start_j > 0 && best_j - start_j <= band + 10
        invariant
            start_j <= best_j,
            band < usize::MAX / 2,
            best_j - start_j <= band + 11,
        decreases start_j,
    {
        start_j = start_j - 1;
    }
    proof {
        lemma_local_alignment(a, best_score as int, best_j as int);
    }
    (best_score, start_j, best_j)
}

proof fn lemma_diag_identity(i: int, len: int)
    requires
        len >= 1,
    ensures
        diag_col(i, len, len) == i,
{
    vstd::arithmetic::div_mod::lemma_div_multiples_vanish(i, len);
    vstd::arithmetic::div_mod::lemma_mod_multiples_basic(i, len);
    assert(i * len == len * i) by (nonlinear_arith);
}

/// The conditions under which a window aligned to itself reaches its full
/// score: a positive match weight, non-negative penalties and a full score
/// that fits in `i32`.
pub open spec fn self_alignment_problem(a: AlignProblem) -> bool {
    &&& a.window == a.pattern
    &&& a.window.len() >= 1
    &&& a.match_score > 0
    &&& a.mismatch_penalty >= 0
    &&& a.gap_penalty >= 0
    &&& a.band >= 0
    &&& a.match_score * a.window.len() <= i32::MAX
}

/// In a self-alignment no cell scores more than `match_score` times the
/// smaller of its row and its column.
proof fn lemma_cell_bound(a: AlignProblem, i: int, b: int)
    requires
        self_alignment_problem(a),
    ensures
        0 <= cell(a, i, b),
        in_band(a, i, b) ==> cell(a, i, b) <= a.match_score * min_int(i, col_of(a, i, b)),
        !in_band(a, i, b) ==> cell(a, i, b) == 0,
    decreases i, b,
{
    let len = a.window.len() as int;
    let mw = a.match_score;
    if i <= 0 || b < 0 || !in_band(a, i, b) {
    } else {
        lemma_diag_identity(i, len);
        lemma_diag_identity(i - 1, len);
        let c = col_of(a, i, b);
        assert(c == i - a.band + b);
        let bound = mw * min_int(i, c);
        assert(mw <= bound <= mw * len) by (nonlinear_arith)
            requires
                bound == mw * min_int(i, c),
                1 <= min_int(i, c) <= len,
                mw > 0,
        ;
        lemma_cell_bound(a, i - 1, b);
        let prev = cell(a, i - 1, b);
        if in_band(a, i - 1, b) {
            assert(col_of(a, i - 1, b) == c - 1);
            assert(mw * min_int(i - 1, c - 1) + mw == bound) by (nonlinear_arith)
                requires
                    bound == mw * min_int(i, c),
                    min_int(i - 1, c - 1) + 1 == min_int(i, c),
            ;
        }
        assert(prev + mw <= bound);
        if b > 0 {
            lemma_cell_bound(a, i, b - 1);
            if in_band(a, i, b - 1) {
                assert(col_of(a, i, b - 1) == c - 1);
                assert(mw * min_int(i, c - 1) <= bound) by (nonlinear_arith)
                    requires
                        bound == mw * min_int(i, c),
                        min_int(i, c - 1) <= min_int(i, c),
                        mw > 0,
                ;
            }
        }
    }
}

/// In a self-alignment the cell on the main diagonal of row `i` scores
/// `match_score * i`.
proof fn lemma_diagonal_cell(a: AlignProblem, i: int)
    requires
        self_alignment_problem(a),
        1 <= i <= a.window.len(),
    ensures
        cell(a, i, a.band) == a.match_score * i,
    decreases i,
{
    let len = a.window.len() as int;
    let mw = a.match_score;
    lemma_diag_identity(i, len);
    assert(col_of(a, i, a.band) == i);
    assert(in_band(a, i, a.band));
    assert(mw * i <= mw * len) by (nonlinear_arith)
        requires
            i <= len,
            mw > 0,
    ;
    assert(mw * (i - 1) + mw == mw * i) by (nonlinear_arith);
    if i > 1 {
        lemma_diagonal_cell(a, i - 1);
    } else {
        assert(cell(a, 0, a.band) == 0);
        assert(mw * (i - 1) == 0) by (nonlinear_arith)
            requires
                i == 1,
        ;
    }
    let prev = cell(a, i - 1, a.band);
    assert(prev == mw * (i - 1));
    assert(a.pattern[i - 1] == a.window[i - 1]);
    assert(clamp_i32(prev + mw) == mw * i);
    assert(clamp_i32(prev - a.gap_penalty) <= prev);
    if a.band > 0 {
        lemma_cell_bound(a, i, a.band - 1);
        if in_band(a, i, a.band - 1) {
            assert(col_of(a, i, a.band - 1) == i - 1);
            assert(mw * min_int(i, i - 1) == mw * (i - 1));
        }
        assert(clamp_i32(cell(a, i, a.band - 1) - a.gap_penalty) <= mw * i);
    }
}

/// A window aligned to an identical pattern of length `L` scores
/// `match_score * L`, the best cell lying on the last column `L`; the
/// reported span is `[L - min(L, band + 11), L)`.
pub proof fn lemma_identical_alignment(a: AlignProblem, best: int, col: int)
    requires
        self_alignment_problem(a),
        best_cell(a, best, col),
    ensures
        best == a.match_score * a.window.len(),
        col == a.window.len(),
        local_alignment(a) == (
            a.match_score * a.window.len(),
            a.window.len() - min_int(a.window.len() as int, a.band + 11),
            a.window.len() as int,
        ),
{
    let len = a.window.len() as int;
    let mw = a.match_score;
    lemma_diagonal_cell(a, len);
    assert(is_cell(a, len, a.band) && before(len, a.band, len + 1, 0));
    assert(cell(a, len, a.band) <= best);
    assert(mw * len > 0) by (nonlinear_arith)
        requires
            mw > 0,
            len >= 1,
    ;
    let (i0, b0) = first_best_cell(a, best, col, len + 1, 0);
    lemma_cell_bound(a, i0, b0);
    assert(in_band(a, i0, b0));
    let m0 = min_int(i0, col_of(a, i0, b0));
    assert(m0 == len) by (nonlinear_arith)
        requires
            mw * m0 >= mw * len,
            1 <= m0 <= len,
            mw > 0,
    ;
    lemma_local_alignment(a, best, col);
}

} // verus!
