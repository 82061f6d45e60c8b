use vstd::prelude::*;
use vstd::slice::{slice_subrange, slice_to_vec};
use vstd::string::StringSliceAdditionalSpecFns;
use crate::alignment::{
    align_problem,
    banded_smith_waterman,
    clamp_i32,
    clamp_to_i32,
    local_alignment,
    max_int,
    min_int,
};
use crate::composition::{calc_composition, composition};

verus! {

/// Detection parameters. The prefilter fraction is the ratio
/// `prefilter_num / prefilter_den`.
pub struct TrfParams {
    pub match_weight: i32,
    pub mismatch_penalty: i32,
    pub indel_penalty: i32,
    pub min_score: i32,
    pub max_period: usize,
    pub prefilter_num: usize,
    pub prefilter_den: usize,
    pub max_copies: usize,
    pub refine_flank: usize,
    pub refine_band: usize,
}

impl TrfParams {
    /// A usable parameter set: a fraction with a non-zero denominator and a
    /// band whose width fits in memory.
    pub open spec fn wf(&self) -> bool {
        &&& self.prefilter_den > 0
        &&& self.refine_band < usize::MAX / 2
    }
}

impl Default for TrfParams {
    fn default() -> (r: Self)
        ensures
            r.match_weight == 2,
            r.mismatch_penalty == 7,
            r.indel_penalty == 7,
            r.min_score == 50,
            r.max_period == 500,
            r.prefilter_num == 3,
            r.prefilter_den == 4,
            r.max_copies == 1000,
            r.refine_flank == 100,
            r.refine_band == 8,
            r.wf(),
    {
        TrfParams {
            match_weight: 2,
            mismatch_penalty: 7,
            indel_penalty: 7,
            min_score: 50,
            max_period: 500,
            prefilter_num: 3,
            prefilter_den: 4,
            max_copies: 1000,
            refine_flank: 100,
            refine_band: 8,
        }
    }
}

/// Score of the first `k` positions of `copy` against `motif`: `+mw` per
/// equal byte, `-mp` per differing one, saturated to `i32` at each step.
pub open spec fn copy_score(motif: Seq<u8>, copy: Seq<u8>, mw: int, mp: int, k: int) -> int
    decreases k,
{
    if k <= 0 {
        0
    } else {
        clamp_i32(
            copy_score(motif, copy, mw, mp, k - 1) + if motif[k - 1] == copy[k - 1] {
                mw
            } else {
                -mp
            },
        )
    }
}

/// Number of equal positions among the first `k` of `a` and `b`.
pub open spec fn exact_matches(a: Seq<u8>, b: Seq<u8>, k: int) -> nat
    decreases k,
{
    if k <= 0 {
        0
    } else {
        exact_matches(a, b, k - 1) + if a[k - 1] == b[k - 1] {
            1nat
        } else {
            0nat
        }
    }
}

/// Copy `k` of the array anchored at `start` (copy 0 is the motif).
pub open spec fn block(seq: Seq<u8>, start: int, period: int, k: int) -> Seq<u8> {
    seq.subrange(start + k * period, start + (k + 1) * period)
}

/// Least number of exact matches a copy needs: `ceil(period * fraction)`.
pub open spec fn min_exact(period: int, p: TrfParams) -> int {
    (period * p.prefilter_num + p.prefilter_den - 1) / (p.prefilter_den as int)
}

/// Whether copy `k` fits in the sequence and is close enough to the motif to
/// extend the array.
pub open spec fn block_accepted(seq: Seq<u8>, start: int, period: int, p: TrfParams, k: int) -> bool {
    &&& start + (k + 1) * period <= seq.len()
    &&& exact_matches(block(seq, start, period, 0), block(seq, start, period, k), period)
        >= min_exact(period, p)
    &&& copy_score(
        block(seq, start, period, 0),
        block(seq, start, period, k),
        p.match_weight as int,
        p.mismatch_penalty as int,
        period,
    ) >= -p.mismatch_penalty * (period / 4)
}

/// Copies of the greedy extension that has `c` copies so far: it goes on
/// while the next copy is accepted and fewer than `max_copies` are held.
pub open spec fn copies_from(seq: Seq<u8>, start: int, period: int, p: TrfParams, c: int) -> int
    decreases p.max_copies - c,
{
    if c < p.max_copies && block_accepted(seq, start, period, p, c) {
        copies_from(seq, start, period, p, c + 1)
    } else {
        c
    }
}

/// Accumulated score of copies `1..c`, saturated to `i32` at each step.
pub open spec fn agg_score(seq: Seq<u8>, start: int, period: int, p: TrfParams, c: int) -> int
    decreases c,
{
    if c <= 1 {
        0
    } else {
        clamp_i32(
            agg_score(seq, start, period, p, c - 1) + copy_score(
                block(seq, start, period, 0),
                block(seq, start, period, c - 1),
                p.match_weight as int,
                p.mismatch_penalty as int,
                period,
            ),
        )
    }
}

/// Half of `x`, rounded toward zero.
pub open spec fn half(x: int) -> int {
    if x >= 0 {
        x / 2
    } else {
        -((-x) / 2)
    }
}

/// Rough score of `copies` copies: half the theoretical maximum plus half
/// the observed agreement, saturated to `i32`.
pub open spec fn rough_score(copies: int, period: int, mw: int, agg: int) -> int {
    clamp_i32(half(copies * period * mw) + half(agg))
}

/// The prefilter's candidate at `start` for `period`: `(rough_end, copies,
/// rough_score)`, or none when the motif is empty, two copies do not fit,
/// fewer than 2 copies are found or the rough score is below `min_score`.
pub open spec fn prefilter(seq: Seq<u8>, start: int, period: int, p: TrfParams) -> Option<
    (int, int, int),
> {
    if period < 1 || start + 2 * period > seq.len() {
        None
    } else {
        let c = copies_from(seq, start, period, p, 1);
        let s = rough_score(c, period, p.match_weight as int, agg_score(seq, start, period, p, c));
        if c < 2 || s < p.min_score {
            None
        } else {
            Some((start + c * period, c, s))
        }
    }
}

pub open spec fn candidate_view(r: Option<(usize, usize, i32)>) -> Option<(int, int, int)> {
    match r {
        Some(t) => Some((t.0 as int, t.1 as int, t.2 as int)),
        None => None,
    }
}

/// Score of `copy` against `motif` over their common length: `+match_weight`
/// per equal byte, `-mismatch_penalty` per differing one, saturating.
pub fn quick_copy_score(motif: &[u8], copy: &[u8], match_weight: i32, mismatch_penalty: i32) -> (r:
    i32)
    ensures
        r == copy_score(
            motif@,
            copy@,
            match_weight as int,
            mismatch_penalty as int,
            if motif@.len() <= copy@.len() {
                motif@.len() as int
            } else {
                copy@.len() as int
            },
        ),
{
    let len = if motif.len() <= copy.len() {
        motif.len()
    } else {
        copy.len()
    };
    let mut score: i32 = 0;
    let mut i: usize = 0;
    while i < len
        invariant
            len <= motif@.len(),
            len <= copy@.len(),
            0 <= i <= len,
            score == copy_score(motif@, copy@, match_weight as int, mismatch_penalty as int, i as int),
        decreases len - i,
    {
        if motif[i] == copy[i] {
            score = clamp_to_i32(score as i64 + match_weight as i64);
        } else {
            score = clamp_to_i32(score as i64 - mismatch_penalty as i64);
        }
        i = i + 1;
    }
    score
}

fn count_exact(motif: &[u8], copy: &[u8]) -> (r: usize)
    requires
        motif@.len() == copy@.len(),
    ensures
        r == exact_matches(motif@, copy@, motif@.len() as int),
{
    let mut exact: usize = 0;
    let mut i: usize = 0;
    while i < motif.len()
        invariant
            motif@.len() == copy@.len(),
            0 <= i <= motif@.len(),
            exact == exact_matches(motif@, copy@, i as int),
            exact <= i,
        decreases motif@.len() - i,
    {
        if motif[i] == copy[i] {
            exact = exact + 1;
        }
        i = i + 1;
    }
    exact
}

fn clamp_wide(x: i128) -> (r: i32)
    ensures
        r == clamp_i32(x as int),
{
    if x > i32::MAX as i128 {
        i32::MAX
    } else if x < i32::MIN as i128 {
        i32::MIN
    } else {
        x as i32
    }
}

fn halve(x: i128) -> (r: i128)
    requires
        -0x1000_0000_0000_0000_0000_0000_0000 < x < 0x1000_0000_0000_0000_0000_0000_0000,
    ensures
        r == half(x as int),
{
    if x >= 0 {
        x / 2
    } else {
        let y: i128 = -x;
        -(y / 2)
    }
}

/// Greedy extension of the motif `seq[start, start + period)` over the
/// following copies; see `prefilter`.
fn phase1_detect(seq: &[u8], start: usize, period: usize, params: &TrfParams) -> (r: Option<
    (usize, usize, i32),
>)
    requires
        params.wf(),
    ensures
        candidate_view(r) == prefilter(seq@, start as int, period as int, *params),
        match r {
            Some(c) => start + 2 * period <= c.0 <= seq@.len(),
            None => true,
        },
{
    let ghost s = seq@;
    let ghost p = *params;
    let ghost st = start as int;
    let ghost per = period as int;
    let seq_len = seq.len();
    if period == 0 || start > seq_len || period > (seq_len - start) / 2 {
        return None;
    }
    let motif = slice_subrange(seq, start, start + period);
    assert(0 * per == 0 && (0 + 1) * per == per) by (nonlinear_arith);
    assert(motif@ == block(s, st, per, 0));
    let mut end = start + period;
    let mut copies: usize = 1;
    let mut agg: i32 = 0;
    assert(usize::MAX <= u64::MAX);
    assert((period as int) * (params.prefilter_num as int) < u128::MAX) by (nonlinear_arith)
        requires
            period <= u64::MAX,
            params.prefilter_num <= u64::MAX,
    ;
    let scaled: u128 = (period as u128) * (params.prefilter_num as u128);
    let den = params.prefilter_den as u128;
    assert(scaled / den <= scaled) by (nonlinear_arith)
        requires
            den >= 1,
    ;
    let need: u128 = scaled / den + if scaled % den != 0 {
        1u128
    } else {
        0u128
    };
    assert(need == min_exact(per, p)) by (nonlinear_arith)
        requires
            need == scaled / den + if scaled % den != 0 {
                1int
            } else {
                0int
            },
            den >= 1,
            den == p.prefilter_den,
            scaled == per * p.prefilter_num,
            min_exact(per, p) == (per * p.prefilter_num + p.prefilter_den - 1) / (
            p.prefilter_den as int),
    ;
    let quarter: usize = period / 4;
    assert(-0x1_0000_0000_0000_0000_0000_0000int < -(params.mismatch_penalty as int) * (
    quarter as int) < 0x1_0000_0000_0000_0000_0000_0000int) by (nonlinear_arith)
        requires
            quarter <= u64::MAX,
            -0x8000_0000int <= params.mismatch_penalty < 0x8000_0000int,
    ;
    let threshold: i128 = -(params.mismatch_penalty as i128) * (quarter as i128);
    let mut stop = false;
    while !stop && end <= seq_len - period && copies < params.max_copies
        invariant
            s == seq@,
            p == *params,
            st == start,
            per == period,
            period >= 1,
            seq_len == s.len(),
            start + 2 * period <= seq_len,
            motif@ == block(s, st, per, 0),
            need == min_exact(per, p),
            threshold == -p.mismatch_penalty * (per / 4),
            copies >= 1,
            copies == 1 || copies <= params.max_copies,
            end == start + copies * period,
            end <= seq_len,
            copies_from(s, st, per, p, copies as int) == copies_from(s, st, per, p, 1),
            agg == agg_score(s, st, per, p, copies as int),
            stop ==> !block_accepted(s, st, per, p, copies as int),
        decreases seq_len - end + if stop {
            0int
        } else {
            1int
        },
    {
        assert((copies as int + 1) * per == copies * per + per) by (nonlinear_arith);
        let next_copy = slice_subrange(seq, end, end + period);
        assert(next_copy@ == block(s, st, per, copies as int));
        let exact = count_exact(motif, next_copy);
        let sc = quick_copy_score(motif, next_copy, params.match_weight, params.mismatch_penalty);
        if (exact as u128) < need || (sc as i128) < threshold {
            stop = true;
        } else {
            agg = clamp_to_i32(agg as i64 + sc as i64);
            copies = copies + 1;
            end = end + period;
        }
    }
    proof {
        if !stop && copies < p.max_copies {
            assert((copies as int + 1) * per == copies * per + per) by (nonlinear_arith);
            assert(!block_accepted(s, st, per, p, copies as int));
        }
        assert(copies_from(s, st, per, p, copies as int) == copies as int);
    }
    if copies < 2 {
        return None;
    }
    assert(copies * per >= 2 * per) by (nonlinear_arith)
        requires
            copies >= 2,
            per >= 1,
    ;
    let span: usize = end - start;
    assert(span == copies * per);
    assert(-0x8000_0000int <= params.match_weight < 0x8000_0000int);
    assert((span as int) * (params.match_weight as int) < 0x1000_0000_0000_0000_0000_0000_0000
        && (span as int) * (params.match_weight as int) > -0x1000_0000_0000_0000_0000_0000_0000)
        by (nonlinear_arith)
        requires
            span <= u64::MAX,
            -0x8000_0000int <= params.match_weight < 0x8000_0000int,
    ;
    let full: i128 = (span as i128) * (params.match_weight as i128);
    let total_wide: i128 = halve(full) + halve(agg as i128);
    let total_score = clamp_wide(total_wide);
    if total_score < params.min_score {
        return None;
    }
    Some((end, copies, total_score))
}

/// A detected tandem repeat over the half-open span `[start, end)` of the
/// scanned sequence (0-based).
pub struct Repeat {
    pub start: usize,
    pub end: usize,
    pub period_size: usize,
    /// Length of the scanned sequence. Copy number and score are reported
    /// relative to it: the copy number is `(end - start) / period_size /
    /// seq_len`, the score `score / seq_len`.
    pub seq_len: usize,
    /// Rough score plus half the alignment score, before normalisation.
    pub score: i32,
    /// Base shares over the span, in hundredths of a percent.
    pub a_percent: u32,
    pub c_percent: u32,
    pub g_percent: u32,
    pub t_percent: u32,
    /// The bases of the span.
    pub sequence: Vec<u8>,
}

pub struct RepeatView {
    pub start: int,
    pub end: int,
    pub period_size: int,
    pub seq_len: int,
    pub score: int,
    pub composition: (int, int, int, int),
    pub sequence: Seq<u8>,
}

impl View for Repeat {
    type V = RepeatView;

    open spec fn view(&self) -> RepeatView {
        RepeatView {
            start: self.start as int,
            end: self.end as int,
            period_size: self.period_size as int,
            seq_len: self.seq_len as int,
            score: self.score as int,
            composition: (
                self.a_percent as int,
                self.c_percent as int,
                self.g_percent as int,
                self.t_percent as int,
            ),
            sequence: self.sequence@,
        }
    }
}

pub open spec fn repeat_views(v: Seq<Repeat>) -> Seq<RepeatView> {
    v.map_values(|r: Repeat| r@)
}

/// `k` copies of `motif`, one after the other.
pub open spec fn tile(motif: Seq<u8>, k: int) -> Seq<u8>
    decreases k,
{
    if k <= 0 {
        Seq::empty()
    } else {
        tile(motif, k - 1) + motif
    }
}

/// Largest number of motif copies tiled into the refinement pattern.
pub const MAX_PATTERN_COPIES: usize = 50;

/// First position of the refinement window around `[rs, re)`.
pub open spec fn window_start(rs: int, p: TrfParams) -> int {
    rs - min_int(rs, p.refine_flank as int)
}

/// End of the refinement window around `[rs, re)`.
pub open spec fn window_end(len: int, re: int, p: TrfParams) -> int {
    min_int(len, re + p.refine_flank)
}

/// Final boundaries from the prefilter's span `[rs, re)` and the aligner's
/// absolute span `[abs_start, abs_end)`: the start only moves forward, the
/// end only outward, and the end stays within the sequence.
pub open spec fn reconcile(rs: int, re: int, abs_start: int, abs_end: int, len: int) -> (int, int) {
    (max_int(rs, abs_start), min_int(len, max_int(re, abs_end)))
}

/// The repeat that refinement makes of the candidate `[rs, re)`.
pub open spec fn refined(
    seq: Seq<u8>,
    rs: int,
    re: int,
    period: int,
    copies: int,
    rough: int,
    p: TrfParams,
) -> RepeatView {
    let ws = window_start(rs, p);
    let we = window_end(seq.len() as int, re, p);
    let pattern = tile(seq.subrange(rs, rs + period), min_int(copies, MAX_PATTERN_COPIES as int));
    let al = local_alignment(
        align_problem(
            seq.subrange(ws, we),
            pattern,
            p.match_weight,
            p.mismatch_penalty,
            p.indel_penalty,
            p.refine_band,
        ),
    );
    let fin = reconcile(rs, re, ws + al.1, ws + al.2, seq.len() as int);
    RepeatView {
        start: fin.0,
        end: fin.1,
        period_size: period,
        seq_len: seq.len() as int,
        score: clamp_i32(rough + al.0 / 2),
        composition: composition(seq.subrange(fin.0, fin.1)),
        sequence: seq.subrange(fin.0, fin.1),
    }
}

/// The asymmetric boundary merge of refinement; see `reconcile`.
pub fn reconcile_bounds(
    rough_start: usize,
    rough_end: usize,
    abs_start: usize,
    abs_end: usize,
    seq_len: usize,
) -> (r: (usize, usize))
    ensures
        (r.0 as int, r.1 as int) == reconcile(
            rough_start as int,
            rough_end as int,
            abs_start as int,
            abs_end as int,
            seq_len as int,
        ),
{
    let final_start = if abs_start > rough_start {
        abs_start
    } else {
        rough_start
    };
    let outer = if abs_end > rough_end {
        abs_end
    } else {
        rough_end
    };
    let final_end = if outer < seq_len {
        outer
    } else {
        seq_len
    };
    (final_start, final_end)
}

fn tile_motif(motif: &[u8], repeat_times: usize) -> (r: Vec<u8>)
    ensures
        r@ == tile(motif@, repeat_times as int),
{
    let period = motif.len();
    let mut pattern_repeated: Vec<u8> = Vec::new();
    let mut t: usize = 0;
    while t < repeat_times
        invariant
            0 <= t <= repeat_times,
            motif@.len() == period,
            pattern_repeated@ == tile(motif@, t as int),
        decreases repeat_times - t,
    {
        let mut u: usize = 0;
        while u < period
            invariant
                0 <= t < repeat_times,
                0 <= u <= period,
                motif@.len() == period,
                pattern_repeated@ == tile(motif@, t as int) + motif@.subrange(0, u as int),
            decreases period - u,
        {
            pattern_repeated.push(motif[u]);
            assert(motif@.subrange(0, u as int + 1) == motif@.subrange(0, u as int).push(
                motif@[u as int],
            ));
            u = u + 1;
        }
        assert(motif@.subrange(0, period as int) == motif@);
        t = t + 1;
    }
    pattern_repeated
}

/// Refines the candidate `[rough_start, rough_end)` of `copies` copies of
/// the motif at `rough_start` with a banded alignment over a flanked window.
fn refine_repeat(
    seq: &[u8],
    rough_start: usize,
    rough_end: usize,
    period: usize,
    copies: usize,
    rough_score: i32,
    params: &TrfParams,
) -> (r: Repeat)
    requires
        params.wf(),
        period >= 1,
        rough_start + 2 * period <= rough_end <= seq@.len(),
    ensures
        r@ == refined(
            seq@,
            rough_start as int,
            rough_end as int,
            period as int,
            copies as int,
            rough_score as int,
            *params,
        ),
        rough_start <= r.start < r.end <= seq@.len(),
        rough_end <= r.end,
        r.end - r.start >= min_int(2 * period, params.refine_band + 11),
{
    let ghost s = seq@;
    let seq_len = seq.len();
    let flank = params.refine_flank;
    let win_start = rough_start.saturating_sub(flank);
    let win_end = if flank <= seq_len - rough_end {
        rough_end + flank
    } else {
        seq_len
    };
    let window = slice_subrange(seq, win_start, win_end);
    let motif = slice_subrange(seq, rough_start, rough_start + period);
    let repeat_times = if copies < MAX_PATTERN_COPIES {
        copies
    } else {
        MAX_PATTERN_COPIES
    };
    let pattern_repeated = tile_motif(motif, repeat_times);
    assert(window@ == s.subrange(win_start as int, win_end as int));
    assert(motif@ == s.subrange(rough_start as int, rough_start + period));
    let (best_score, rel_start, rel_end) = banded_smith_waterman(
        window,
        pattern_repeated.as_slice(),
        params.match_weight,
        params.mismatch_penalty,
        params.indel_penalty,
        params.refine_band,
    );
    let ghost a = align_problem(
        window@,
        pattern_repeated@,
        params.match_weight,
        params.mismatch_penalty,
        params.indel_penalty,
        params.refine_band,
    );
    assert(best_score >= 0);
    let abs_start = win_start + rel_start;
    let abs_end = win_start + rel_end;
    let (final_start, final_end) = reconcile_bounds(
        rough_start,
        rough_end,
        abs_start,
        abs_end,
        seq_len,
    );
    assert(final_end as int == min_int(
        seq_len as int,
        max_int(rough_end as int, win_start + rel_end),
    ));
    let span = slice_subrange(seq, final_start, final_end);
    let (a_pct, c_pct, g_pct, t_pct) = calc_composition(span);
    let half_best: i32 = ((best_score as u32) / 2) as i32;
    let score = clamp_to_i32(rough_score as i64 + half_best as i64);
    Repeat {
        start: final_start,
        end: final_end,
        period_size: period,
        seq_len,
        score,
        a_percent: a_pct,
        c_percent: c_pct,
        g_percent: g_pct,
        t_percent: t_pct,
        sequence: slice_to_vec(span),
    }
}

/// Largest period tried at anchor `cursor`.
pub open spec fn max_period_at(seq: Seq<u8>, cursor: int, p: TrfParams) -> int {
    min_int(p.max_period as int, (seq.len() - cursor) / 2)
}

/// Best candidate among periods `1..=k` at anchor `cursor`, as
/// `(rough_end, copies, rough_score, period)`: the highest rough score, the
/// smallest period among equal scores.
pub open spec fn best_upto(seq: Seq<u8>, cursor: int, p: TrfParams, k: int) -> Option<
    (int, int, int, int),
>
    decreases k,
{
    if k <= 0 {
        None
    } else {
        let prev = best_upto(seq, cursor, p, k - 1);
        match prefilter(seq, cursor, k, p) {
            Some(c) => match prev {
                Some(b) => if c.2 > b.2 {
                    Some((c.0, c.1, c.2, k))
                } else {
                    prev
                },
                None => Some((c.0, c.1, c.2, k)),
            },
            None => prev,
        }
    }
}

pub open spec fn best_candidate(seq: Seq<u8>, cursor: int, p: TrfParams) -> Option<
    (int, int, int, int),
> {
    best_upto(seq, cursor, p, max_period_at(seq, cursor, p))
}

/// One step of the scan from cursor `cursor` with everything before
/// `last_end` claimed: the next cursor, the next `last_end`, and the repeat
/// accepted at this anchor, if any.
pub open spec fn scan_step_spec(seq: Seq<u8>, p: TrfParams, cursor: int, last_end: int) -> (
    int,
    int,
    Option<RepeatView>,
) {
    if cursor < last_end {
        (cursor + 1, last_end, None)
    } else {
        match best_candidate(seq, cursor, p) {
            None => (cursor + 1, last_end, None),
            Some(c) => {
                let r = refined(seq, cursor, c.0, c.3, c.1, c.2, p);
                // A refined repeat always ends past its anchor.
                if r.start >= last_end && r.end > cursor {
                    (r.end, r.end, Some(r))
                } else {
                    (cursor + 1, last_end, None)
                }
            },
        }
    }
}

pub open spec fn opt_seq(o: Option<RepeatView>) -> Seq<RepeatView> {
    match o {
        Some(r) => seq![r],
        None => Seq::empty(),
    }
}

/// The repeats that the scan reports from state `(cursor, last_end)` on.
pub open spec fn scan_from(seq: Seq<u8>, p: TrfParams, cursor: int, last_end: int) -> Seq<
    RepeatView,
>
    decreases seq.len() - cursor,
{
    if cursor >= seq.len() {
        Seq::empty()
    } else {
        let st = scan_step_spec(seq, p, cursor, last_end);
        opt_seq(st.2) + scan_from(seq, p, st.0, st.1)
    }
}

/// The repeats of a whole scan.
pub open spec fn scan(seq: Seq<u8>, p: TrfParams) -> Seq<RepeatView> {
    scan_from(seq, p, 0, 0)
}

/// Whether every repeat lies in a sequence of length `len`, has a period of
/// at least 1, and spans at least `min(2 * period, band + 11)` bases.
pub open spec fn repeats_in_bounds(rs: Seq<RepeatView>, len: int, band: int) -> bool {
    forall|k: int|
        0 <= k < rs.len() ==> {
            &&& 0 <= #[trigger] rs[k].start < rs[k].end <= len
            &&& rs[k].period_size >= 1
            &&& rs[k].end - rs[k].start >= min_int(2 * rs[k].period_size, band + 11)
        }
}

/// Whether the repeats are ordered by start and pairwise disjoint.
pub open spec fn ordered_disjoint(rs: Seq<RepeatView>) -> bool {
    forall|k: int, l: int| 0 <= k < l < rs.len() ==> #[trigger] rs[k].end <= #[trigger] rs[l].start
}

/// The state of the sequential scan: the anchor under test and the end of
/// the last accepted repeat.
pub struct ScanState {
    pub cursor: usize,
    pub last_end: usize,
}

/// Best prefilter candidate at anchor `cursor`; see `best_candidate`.
fn find_best_candidate(seq: &[u8], cursor: usize, params: &TrfParams) -> (r: Option<
    (usize, usize, i32, usize),
>)
    requires
        params.wf(),
        cursor <= seq@.len(),
    ensures
        match r {
            Some(c) => best_candidate(seq@, cursor as int, *params) == Some(
                (c.0 as int, c.1 as int, c.2 as int, c.3 as int),
            ) && cursor + 2 * c.3 <= c.0 <= seq@.len() && c.3 >= 1,
            None => best_candidate(seq@, cursor as int, *params) is None,
        },
{
    let seq_len = seq.len();
    let half_rest = (seq_len - cursor) / 2;
    let max_period = if params.max_period < half_rest {
        params.max_period
    } else {
        half_rest
    };
    let mut best: Option<(usize, usize, i32, usize)> = None;
    let mut period: usize = 1;
    while period <= max_period
        invariant
            params.wf(),
            cursor <= seq@.len(),
            seq_len == seq@.len(),
            max_period == max_period_at(seq@, cursor as int, *params),
            max_period <= (seq_len - cursor) / 2,
            1 <= period <= max_period + 1,
            match best {
                Some(c) => best_upto(seq@, cursor as int, *params, period - 1) == Some(
                    (c.0 as int, c.1 as int, c.2 as int, c.3 as int),
                ) && cursor + 2 * c.3 <= c.0 <= seq@.len() && c.3 >= 1,
                None => best_upto(seq@, cursor as int, *params, period - 1) is None,
            },
        decreases max_period + 1 - period,
    {
        let found = phase1_detect(seq, cursor, period, params);
        match found {
            Some((rough_end, copies, rough_score)) => {
                let better = match best {
                    Some(b) => rough_score > b.2,
                    None => true,
                };
                if better {
                    best = Some((rough_end, copies, rough_score, period));
                }
            },
            None => {},
        }
        period = period + 1;
    }
    best
}

/// Whether `r` may stand after repeats that end by `last_end` in a sequence
/// of length `len`.
pub open spec fn accepted_after(r: RepeatView, last_end: int, len: int, band: int) -> bool {
    &&& last_end <= r.start < r.end <= len
    &&& r.period_size >= 1
    &&& r.end - r.start >= min_int(2 * r.period_size, band + 11)
}

/// One step of the sequential scan: inside a claimed repeat the cursor
/// moves on by one; elsewhere the best candidate at the cursor is refined
/// and accepted when it starts at or after `last_end`, and the cursor jumps
/// to its end. See `scan_step_spec`.
pub fn scan_step(seq: &[u8], params: &TrfParams, state: &mut ScanState, repeats: &mut Vec<Repeat>)
    requires
        params.wf(),
        old(state).cursor < seq@.len(),
    ensures
        ({
            let st = scan_step_spec(
                seq@,
                *params,
                old(state).cursor as int,
                old(state).last_end as int,
            );
            &&& final(state).cursor == st.0
            &&& final(state).last_end == st.1
            &&& repeat_views(final(repeats)@) == repeat_views(old(repeats)@) + opt_seq(st.2)
            &&& match st.2 {
                Some(r) => accepted_after(
                    r,
                    old(state).last_end as int,
                    seq@.len() as int,
                    params.refine_band as int,
                ) && r.end == final(state).last_end,
                None => final(state).last_end == old(state).last_end,
            }
        }),
        old(state).cursor < final(state).cursor <= seq@.len(),
{
    let cursor = state.cursor;
    let seq_len = seq.len();
    assert(cursor < seq_len);
    let ghost old_views = repeat_views(repeats@);
    if cursor < state.last_end {
        state.cursor = cursor + 1;
        assert(old_views + opt_seq(None) =~= old_views);
        return;
    }
    match find_best_candidate(seq, cursor, params) {
        None => {
            state.cursor = cursor + 1;
            assert(old_views + opt_seq(None) =~= old_views);
        },
        Some((rough_end, copies, rough_score, period)) => {
            let rep = refine_repeat(seq, cursor, rough_end, period, copies, rough_score, params);
            if rep.start >= state.last_end {
                let end = rep.end;
                let ghost rv = rep@;
                repeats.push(rep);
                assert(repeat_views(repeats@) =~= old_views + opt_seq(Some(rv)));
                state.cursor = end;
                state.last_end = end;
            } else {
                state.cursor = cursor + 1;
                assert(old_views + opt_seq(None) =~= old_views);
            }
        },
    }
}

/// Scans `sequence` for tandem repeats with the sequential scan, from
/// cursor 0 with nothing claimed. The repeats come ordered by start and
/// pairwise disjoint.
pub fn scan_sequence_trf(sequence: &str, params: &TrfParams) -> (r: Vec<Repeat>)
    requires
        params.wf(),
    ensures
        repeat_views(r@) == scan(sequence.spec_bytes(), *params),
        repeats_in_bounds(
            repeat_views(r@),
            sequence.spec_bytes().len() as int,
            params.refine_band as int,
        ),
        ordered_disjoint(repeat_views(r@)),
        covered(repeat_views(r@)) <= sequence.spec_bytes().len(),
{
    let seq = sequence.as_bytes();
    let ghost s = seq@;
    let ghost band = params.refine_band as int;
    let mut repeats: Vec<Repeat> = Vec::new();
    let mut state = ScanState { cursor: 0, last_end: 0 };
    while state.cursor < seq.len()
        invariant
            params.wf(),
            s == seq@,
            s == sequence.spec_bytes(),
            band == params.refine_band,
            state.cursor <= s.len(),
            repeat_views(repeats@) + scan_from(s, *params, state.cursor as int, state.last_end as int)
                == scan(s, *params),
            repeats_in_bounds(repeat_views(repeats@), s.len() as int, band),
            ordered_disjoint(repeat_views(repeats@)),
            forall|k: int|
                0 <= k < repeats@.len() ==> #[trigger] repeat_views(repeats@)[k].end
                    <= state.last_end,
        decreases s.len() - state.cursor,
    {
        let ghost before = repeat_views(repeats@);
        let ghost c0 = state.cursor as int;
        let ghost l0 = state.last_end as int;
        scan_step(seq, params, &mut state, &mut repeats);
        proof {
            let st = scan_step_spec(s, *params, c0, l0);
            assert(scan_from(s, *params, c0, l0) == opt_seq(st.2) + scan_from(
                s,
                *params,
                st.0,
                st.1,
            ));
            assert(before + (opt_seq(st.2) + scan_from(s, *params, st.0, st.1)) =~= (before
                + opt_seq(st.2)) + scan_from(s, *params, st.0, st.1));
            let now = repeat_views(repeats@);
            assert forall|k: int| 0 <= k < repeats@.len() implies #[trigger] now[k].end
                <= state.last_end by {
                if k < before.len() {
                    assert(now[k] == before[k]);
                }
            }
            assert forall|k: int, l: int| 0 <= k < l < now.len() implies #[trigger] now[k].end
                <= #[trigger] now[l].start by {
                if l < before.len() {
                    assert(now[k] == before[k] && now[l] == before[l]);
                } else {
                    assert(now[k] == before[k]);
                }
            }
            assert forall|k: int| 0 <= k < now.len() implies {
                &&& 0 <= #[trigger] now[k].start < now[k].end <= s.len()
                &&& now[k].period_size >= 1
                &&& now[k].end - now[k].start >= min_int(2 * now[k].period_size, band + 11)
            } by {
                if k < before.len() {
                    assert(now[k] == before[k]);
                }
            }
        }
    }
    proof {
        lemma_covered_within(repeat_views(repeats@), s.len() as int, band);
    }
    repeats
}

/// Total number of bases covered by `repeats`, saturated to `usize`.
pub open spec fn covered(rs: Seq<RepeatView>) -> int
    decreases rs.len(),
{
    if rs.len() == 0 {
        0
    } else {
        min_int(
            usize::MAX as int,
            covered(rs.drop_last()) + (rs.last().end - min_int(rs.last().start, rs.last().end)),
        )
    }
}

/// Number of bases that `repeats` cover, counting each repeat's span.
pub fn covered_bases(repeats: &[Repeat]) -> (r: usize)
    ensures
        r == covered(repeat_views(repeats@)),
{
    let mut total: usize = 0;
    let mut k: usize = 0;
    while k < repeats.len()
        invariant
            0 <= k <= repeats@.len(),
            total == covered(repeat_views(repeats@.subrange(0, k as int))),
        decreases repeats@.len() - k,
    {
        let r = &repeats[k];
        let span = r.end.saturating_sub(r.start);
        total = total.saturating_add(span);
        proof {
            let pre = repeat_views(repeats@.subrange(0, k as int + 1));
            assert(pre.drop_last() =~= repeat_views(repeats@.subrange(0, k as int)));
            assert(pre.last() == repeats@[k as int]@);
        }
        k = k + 1;
    }
    assert(repeats@.subrange(0, repeats@.len() as int) =~= repeats@);
    total
}

/// Two scans of equal sequences with equal parameters report the same
/// repeats: the result is a function of the sequence and the parameters.
pub proof fn lemma_scan_deterministic(
    seq_a: Seq<u8>,
    seq_b: Seq<u8>,
    params_a: TrfParams,
    params_b: TrfParams,
)
    requires
        seq_a == seq_b,
        params_a == params_b,
    ensures
        scan(seq_a, params_a) == scan(seq_b, params_b),
{
}

proof fn lemma_copies_accepted(seq: Seq<u8>, start: int, period: int, p: TrfParams, c: int, k: int)
    requires
        c <= k < copies_from(seq, start, period, p, c),
    ensures
        block_accepted(seq, start, period, p, k),
    decreases p.max_copies - c,
{
    if c < p.max_copies && block_accepted(seq, start, period, p, c) {
        if k > c {
            lemma_copies_accepted(seq, start, period, p, c + 1, k);
        }
    }
}

/// Every copy that the prefilter counts after the motif has at least
/// `ceil(period * prefilter_num / prefilter_den)` bases equal to the motif's:
/// a candidate needs its first copy to reach that ratio.
pub proof fn lemma_prefilter_copies_match(seq: Seq<u8>, start: int, period: int, p: TrfParams)
    requires
        prefilter(seq, start, period, p) is Some,
    ensures
        forall|k: int|
            1 <= k < copies_from(seq, start, period, p, 1) ==> #[trigger] exact_matches(
                block(seq, start, period, 0),
                block(seq, start, period, k),
                period,
            ) >= min_exact(period, p),
        exact_matches(block(seq, start, period, 0), block(seq, start, period, 1), period)
            >= min_exact(period, p),
{
    let c = copies_from(seq, start, period, p, 1);
    assert forall|k: int| 1 <= k < copies_from(seq, start, period, p, 1) implies #[trigger] exact_matches(
        block(seq, start, period, 0),
        block(seq, start, period, k),
        period,
    ) >= min_exact(period, p) by {
        lemma_copies_accepted(seq, start, period, p, 1, k);
    }
    lemma_copies_accepted(seq, start, period, p, 1, 1);
}

/// Repeats that lie in `[0, len)`, ordered and pairwise disjoint, cover at
/// most `len` bases, and at most the end of the last of them.
pub proof fn lemma_covered_within(rs: Seq<RepeatView>, len: int, band: int)
    requires
        len >= 0,
        repeats_in_bounds(rs, len, band),
        ordered_disjoint(rs),
    ensures
        covered(rs) <= len,
        rs.len() > 0 ==> covered(rs) <= rs.last().end,
    decreases rs.len(),
{
    if rs.len() > 0 {
        let pre = rs.drop_last();
        assert forall|k: int| 0 <= k < pre.len() implies #[trigger] pre[k] == rs[k] by {}
        assert(repeats_in_bounds(pre, len, band)) by {
            assert forall|k: int| 0 <= k < pre.len() implies {
                &&& 0 <= #[trigger] pre[k].start < pre[k].end <= len
                &&& pre[k].period_size >= 1
                &&& pre[k].end - pre[k].start >= min_int(2 * pre[k].period_size, band + 11)
            } by {
                assert(pre[k] == rs[k]);
            }
        }
        assert(ordered_disjoint(pre)) by {
            assert forall|k: int, l: int| 0 <= k < l < pre.len() implies #[trigger] pre[k].end
                <= #[trigger] pre[l].start by {
                assert(pre[k] == rs[k] && pre[l] == rs[l]);
            }
        }
        lemma_covered_within(pre, len, band);
        let n = rs.len() as int;
        assert(0 <= rs[n - 1].start < rs[n - 1].end <= len);
        if pre.len() > 0 {
            assert(pre.last() == rs[n - 2]);
            assert(rs[n - 2].end <= rs[n - 1].start);
        }
    }
}

/// A copy `k >= 1` whose exact matches with the motif fall below
/// `ceil(period * prefilter_num / prefilter_den)` ends the greedy extension:
/// the prefilter counts at most `k` copies, so with `k == 1` it finds no
/// candidate.
pub proof fn lemma_prefilter_stops_at_weak_copy(
    seq: Seq<u8>,
    start: int,
    period: int,
    p: TrfParams,
    k: int,
)
    requires
        k >= 1,
        exact_matches(block(seq, start, period, 0), block(seq, start, period, k), period)
            < min_exact(period, p),
    ensures
        match prefilter(seq, start, period, p) {
            Some(c) => c.1 <= k,
            None => true,
        },
        k == 1 ==> prefilter(seq, start, period, p) is None,
{
    if copies_from(seq, start, period, p, 1) > k {
        lemma_copies_accepted(seq, start, period, p, 1, k);
    }
}

/// Whether, at every anchor and for every period up to `max_period` that
/// fits twice, the copy after the motif falls short of the exact-match
/// threshold: the sequence has no internal repetition the prefilter accepts.
pub open spec fn no_repetition(seq: Seq<u8>, p: TrfParams) -> bool {
    forall|i: int, per: int|
        0 <= i && 1 <= per <= p.max_period && i + 2 * per <= seq.len() ==> #[trigger] exact_matches(
            block(seq, i, per, 0),
            block(seq, i, per, 1),
            per,
        ) < min_exact(per, p)
}

proof fn lemma_best_upto_none(seq: Seq<u8>, cursor: int, p: TrfParams, k: int)
    requires
        no_repetition(seq, p),
        0 <= cursor <= seq.len(),
        k <= max_period_at(seq, cursor, p),
    ensures
        best_upto(seq, cursor, p, k) is None,
    decreases k,
{
    if k > 0 {
        lemma_best_upto_none(seq, cursor, p, k - 1);
        assert(cursor + 2 * k <= seq.len());
        lemma_prefilter_stops_at_weak_copy(seq, cursor, k, p, 1);
    }
}

proof fn lemma_scan_from_empty(seq: Seq<u8>, p: TrfParams, cursor: int, last_end: int)
    requires
        no_repetition(seq, p),
        0 <= cursor,
    ensures
        scan_from(seq, p, cursor, last_end) == Seq::<RepeatView>::empty(),
    decreases seq.len() - cursor,
{
    if cursor < seq.len() {
        lemma_best_upto_none(seq, cursor, p, max_period_at(seq, cursor, p));
        lemma_scan_from_empty(seq, p, cursor + 1, last_end);
        assert(opt_seq(None) + Seq::<RepeatView>::empty() =~= Seq::<RepeatView>::empty());
    }
}

/// A sequence without internal repetition that the prefilter accepts (see
/// `no_repetition`) yields no repeats.
pub proof fn lemma_no_repetition_no_repeats(seq: Seq<u8>, p: TrfParams)
    requires
        no_repetition(seq, p),
    ensures
        scan(seq, p) == Seq::<RepeatView>::empty(),
{
    lemma_scan_from_empty(seq, p, 0, 0);
}

proof fn lemma_copies_from_run(seq: Seq<u8>, start: int, period: int, p: TrfParams, j: int, c: int)
    requires
        1 <= j <= c <= p.max_copies,
        forall|k: int| j <= k < c ==> #[trigger] block_accepted(seq, start, period, p, k),
        c == p.max_copies || !block_accepted(seq, start, period, p, c),
    ensures
        copies_from(seq, start, period, p, j) == c,
    decreases c - j,
{
    if j < c {
        lemma_copies_from_run(seq, start, period, p, j + 1, c);
    }
}

/// While every copy after the motif is accepted (exact matches at least
/// `ceil(period * prefilter_num / prefilter_den)` and a quick score above
/// the floor), the prefilter keeps counting: a run of `c >= 2` copies ended
/// by a rejected copy, the end of the sequence or `max_copies` is reported as
/// `(start + c * period, c, rough score)` when that score reaches `min_score`.
pub proof fn lemma_prefilter_counts_accepted_copies(
    seq: Seq<u8>,
    start: int,
    period: int,
    p: TrfParams,
    c: int,
)
    requires
        period >= 1,
        2 <= c <= p.max_copies,
        forall|k: int| 1 <= k < c ==> #[trigger] block_accepted(seq, start, period, p, k),
        c == p.max_copies || !block_accepted(seq, start, period, p, c),
        rough_score(c, period, p.match_weight as int, agg_score(seq, start, period, p, c))
            >= p.min_score,
    ensures
        prefilter(seq, start, period, p) == Some(
            (
                start + c * period,
                c,
                rough_score(c, period, p.match_weight as int, agg_score(seq, start, period, p, c)),
            ),
        ),
{
    lemma_copies_from_run(seq, start, period, p, 1, c);
    assert(block_accepted(seq, start, period, p, 1));
    assert((1 + 1) * period == 2 * period);
}

} // verus!
