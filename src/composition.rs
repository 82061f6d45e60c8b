use vstd::prelude::*;

verus! {

/// Whether byte `x` is the base `upper` in either case.
pub open spec fn is_base(x: u8, upper: u8) -> bool {
    x == upper || x == upper + 32
}

/// Number of positions among the first `k` of `s` that hold the base `upper`.
pub open spec fn count_base(s: Seq<u8>, upper: u8, k: int) -> nat
    decreases k,
{
    if k <= 0 {
        0
    } else {
        count_base(s, upper, k - 1) + if is_base(s[k - 1], upper) {
            1nat
        } else {
            0nat
        }
    }
}

/// Number of A, C, G and T bases (either case) in `s`.
pub open spec fn acgt_total(s: Seq<u8>) -> nat {
    count_base(s, 65, s.len() as int) + count_base(s, 67, s.len() as int) + count_base(
        s,
        71,
        s.len() as int,
    ) + count_base(s, 84, s.len() as int)
}

/// Share of `count` in `total`, in hundredths of a percent, rounded down.
pub open spec fn floor_share(count: int, total: int) -> int {
    (count * 10000) / total
}

/// What rounding down drops from the share of `count`, in units of
/// `1 / total` hundredths.
pub open spec fn share_rem(count: int, total: int) -> int {
    (count * 10000) % total
}

pub open spec fn pick(r: (int, int, int, int), i: int) -> int {
    if i == 0 {
        r.0
    } else if i == 1 {
        r.1
    } else if i == 2 {
        r.2
    } else {
        r.3
    }
}

/// Whether base `j` comes before base `i` when the rounding is handed out:
/// the larger remainder first, then the earlier base in A, C, G, T order.
pub open spec fn ahead(r: (int, int, int, int), j: int, i: int) -> bool {
    j != i && (pick(r, j) > pick(r, i) || (pick(r, j) == pick(r, i) && j < i))
}

pub open spec fn one_if(b: bool) -> int {
    if b {
        1
    } else {
        0
    }
}

/// Number of bases that come before base `i` for the remainders `r`.
pub open spec fn rank(r: (int, int, int, int), i: int) -> int {
    one_if(ahead(r, 0, i)) + one_if(ahead(r, 1, i)) + one_if(ahead(r, 2, i)) + one_if(
        ahead(r, 3, i),
    )
}

/// Shares of the counts `(a, c, g, t)` in hundredths of a percent, by the
/// largest remainder method: each share is rounded down, and the hundredths
/// still missing from 10000 go one each to the bases with the largest
/// remainders (the earlier base first among equal remainders). All 0 when the
/// counts are all 0.
pub open spec fn shares(n: (int, int, int, int)) -> (int, int, int, int) {
    let t = n.0 + n.1 + n.2 + n.3;
    if t == 0 {
        (0, 0, 0, 0)
    } else {
        let f = (floor_share(n.0, t), floor_share(n.1, t), floor_share(n.2, t), floor_share(n.3, t));
        let r = (share_rem(n.0, t), share_rem(n.1, t), share_rem(n.2, t), share_rem(n.3, t));
        let missing = 10000 - (f.0 + f.1 + f.2 + f.3);
        (
            f.0 + one_if(rank(r, 0) < missing),
            f.1 + one_if(rank(r, 1) < missing),
            f.2 + one_if(rank(r, 2) < missing),
            f.3 + one_if(rank(r, 3) < missing),
        )
    }
}

/// Numbers of A, C, G and T bases (either case) in `s`.
pub open spec fn base_counts(s: Seq<u8>) -> (int, int, int, int) {
    (
        count_base(s, 65, s.len() as int) as int,
        count_base(s, 67, s.len() as int) as int,
        count_base(s, 71, s.len() as int) as int,
        count_base(s, 84, s.len() as int) as int,
    )
}

/// Base composition of `s`: the shares of A, C, G and T among its A, C, G
/// and T bases, in hundredths of a percent.
pub open spec fn composition(s: Seq<u8>) -> (int, int, int, int) {
    shares(base_counts(s))
}

proof fn lemma_ranks_hand_out(r: (int, int, int, int), d: int)
    requires
        0 <= d <= 4,
    ensures
        one_if(rank(r, 0) < d) + one_if(rank(r, 1) < d) + one_if(rank(r, 2) < d) + one_if(
            rank(r, 3) < d,
        ) == d,
{
}

/// Shares of counts that are not all 0 sum to exactly 10000 hundredths
/// (100%), and each lies within one hundredth above its exact value rounded
/// down; counts that are all 0 have all four shares 0.
pub proof fn lemma_shares_sum_to_whole(n: (int, int, int, int))
    requires
        n.0 >= 0,
        n.1 >= 0,
        n.2 >= 0,
        n.3 >= 0,
    ensures
        n.0 + n.1 + n.2 + n.3 > 0 ==> {
            let sh = shares(n);
            let t = n.0 + n.1 + n.2 + n.3;
            &&& sh.0 + sh.1 + sh.2 + sh.3 == 10000
            &&& floor_share(n.0, t) <= sh.0 <= floor_share(n.0, t) + 1
            &&& floor_share(n.1, t) <= sh.1 <= floor_share(n.1, t) + 1
            &&& floor_share(n.2, t) <= sh.2 <= floor_share(n.2, t) + 1
            &&& floor_share(n.3, t) <= sh.3 <= floor_share(n.3, t) + 1
        },
        n.0 + n.1 + n.2 + n.3 == 0 ==> shares(n) == (0int, 0int, 0int, 0int),
{
    let tot = n.0 + n.1 + n.2 + n.3;
    if tot > 0 {
        let (a, c, g, t) = n;
        let qa = (a * 10000) / tot;
        let qc = (c * 10000) / tot;
        let qg = (g * 10000) / tot;
        let qt = (t * 10000) / tot;
        let ra = (a * 10000) % tot;
        let rc = (c * 10000) % tot;
        let rg = (g * 10000) % tot;
        let rt = (t * 10000) % tot;
        vstd::arithmetic::div_mod::lemma_fundamental_div_mod(a * 10000, tot);
        vstd::arithmetic::div_mod::lemma_fundamental_div_mod(c * 10000, tot);
        vstd::arithmetic::div_mod::lemma_fundamental_div_mod(g * 10000, tot);
        vstd::arithmetic::div_mod::lemma_fundamental_div_mod(t * 10000, tot);
        assert((qa + qc + qg + qt) * tot + (ra + rc + rg + rt) == 10000 * tot) by (nonlinear_arith)
            requires
                a * 10000 == tot * qa + ra,
                c * 10000 == tot * qc + rc,
                g * 10000 == tot * qg + rg,
                t * 10000 == tot * qt + rt,
                tot == a + c + g + t,
        ;
        assert(9997 <= qa + qc + qg + qt <= 10000) by (nonlinear_arith)
            requires
                (qa + qc + qg + qt) * tot + (ra + rc + rg + rt) == 10000 * tot,
                0 <= ra < tot,
                0 <= rc < tot,
                0 <= rg < tot,
                0 <= rt < tot,
                tot > 0,
        ;
        lemma_ranks_hand_out((ra, rc, rg, rt), 10000 - (qa + qc + qg + qt));
    }
}

/// The four shares of a span with at least one A, C, G or T sum to exactly
/// 100% (10000 hundredths); a span without any of them has all four shares 0.
pub proof fn lemma_composition_sums_to_whole(s: Seq<u8>)
    ensures
        acgt_total(s) > 0 ==> {
            let c = composition(s);
            c.0 + c.1 + c.2 + c.3 == 10000
        },
        acgt_total(s) == 0 ==> composition(s) == (0int, 0int, 0int, 0int),
{
    lemma_shares_sum_to_whole(base_counts(s));
}

/// Base composition of `seq`: the shares of A, C, G and T (either case) among
/// the A, C, G and T bases of `seq`, in hundredths of a percent, rounded by
/// the largest remainder method so that they sum to exactly 10000; all 0 when
/// `seq` holds none of them.
pub fn calc_composition(seq: &[u8]) -> (r: (u32, u32, u32, u32))
    ensures
        (r.0 as int, r.1 as int, r.2 as int, r.3 as int) == composition(seq@),
{
    let ghost s = seq@;
    let mut a: usize = 0;
    let mut c: usize = 0;
    let mut g: usize = 0;
    let mut t: usize = 0;
    let mut k: usize = 0;
    while k < seq.len()
        invariant
            s == seq@,
            0 <= k <= s.len(),
            a == count_base(s, 65, k as int),
            c == count_base(s, 67, k as int),
            g == count_base(s, 71, k as int),
            t == count_base(s, 84, k as int),
            a + c + g + t <= k,
        decreases s.len() - k,
    {
        let base = seq[k];
        if base == 65 || base == 97 {
            a = a + 1;
        } else if base == 67 || base == 99 {
            c = c + 1;
        } else if base == 71 || base == 103 {
            g = g + 1;
        } else if base == 84 || base == 116 {
            t = t + 1;
        }
        k = k + 1;
    }
    split_shares(a, c, g, t)
}

fn rank_exec(r: (u128, u128, u128, u128), i: usize) -> (k: usize)
    requires
        i < 4,
    ensures
        k == rank((r.0 as int, r.1 as int, r.2 as int, r.3 as int), i as int),
{
    let ri = if i == 0 {
        r.0
    } else if i == 1 {
        r.1
    } else if i == 2 {
        r.2
    } else {
        r.3
    };
    let mut k: usize = 0;
    if i != 0 && (r.0 > ri || r.0 == ri) {
        k = k + 1;
    }
    if i != 1 && (r.1 > ri || (r.1 == ri && 1 < i)) {
        k = k + 1;
    }
    if i != 2 && (r.2 > ri || (r.2 == ri && 2 < i)) {
        k = k + 1;
    }
    if i != 3 && r.3 > ri {
        k = k + 1;
    }
    k
}

/// Shares of the counts `(a, c, g, t)`; see `shares`.
fn split_shares(a: usize, c: usize, g: usize, t: usize) -> (r: (u32, u32, u32, u32))
    requires
        a + c + g + t <= usize::MAX,
    ensures
        (r.0 as int, r.1 as int, r.2 as int, r.3 as int) == shares(
            (a as int, c as int, g as int, t as int),
        ),
{
    let total = a + c + g + t;
    if total == 0 {
        return (0, 0, 0, 0);
    }
    proof {
        lemma_shares_sum_to_whole((a as int, c as int, g as int, t as int));
    }
    let (fa, ra) = floor_and_rem(a, total);
    let (fc, rc) = floor_and_rem(c, total);
    let (fg, rg) = floor_and_rem(g, total);
    let (ft, rt) = floor_and_rem(t, total);
    let missing: usize = (10000 - (fa + fc + fg + ft)) as usize;
    let rems = (ra, rc, rg, rt);
    let sa = if rank_exec(rems, 0) < missing { fa + 1 } else { fa };
    let sc = if rank_exec(rems, 1) < missing { fc + 1 } else { fc };
    let sg = if rank_exec(rems, 2) < missing { fg + 1 } else { fg };
    let st = if rank_exec(rems, 3) < missing { ft + 1 } else { ft };
    (sa as u32, sc as u32, sg as u32, st as u32)
}

fn floor_and_rem(count: usize, total: usize) -> (r: (u128, u128))
    requires
        count <= total,
        total > 0,
    ensures
        r.0 == floor_share(count as int, total as int),
        r.1 == share_rem(count as int, total as int),
        r.0 <= 10000,
{
    assert(usize::MAX <= u64::MAX);
    assert((count as int) * 10000 <= u128::MAX) by (nonlinear_arith)
        requires
            count <= u64::MAX,
    ;
    let x: u128 = (count as u128) * 10000;
    assert(x / (total as u128) <= 10000) by (nonlinear_arith)
        requires
            x == count * 10000,
            count <= total,
            total > 0,
    ;
    (x / (total as u128), x % (total as u128))
}

} // verus!
