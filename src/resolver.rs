use vstd::prelude::*;
use vstd::multiset::Multiset;

verus! {

broadcast use {vstd::seq_lib::group_to_multiset_ensures, vstd::seq_lib::to_multiset_insert};

/// A candidate repeat `[position, position + length)` found by one chunk of
/// a parallel scan.
#[derive(Clone, Copy, Debug)]
pub struct Candidate {
    pub position: usize,
    pub length: usize,
    pub score: i32,
    pub period: usize,
}

/// The resolver's order: position ascending, then score descending, then
/// length descending, then period ascending. It compares every field, so
/// any two distinct candidates are ordered.
pub open spec fn precedes(a: Candidate, b: Candidate) -> bool {
    ||| a.position < b.position
    ||| (a.position == b.position && a.score > b.score)
    ||| (a.position == b.position && a.score == b.score && a.length > b.length)
    ||| (a.position == b.position && a.score == b.score && a.length == b.length && a.period
        < b.period)
}

/// No candidate precedes one that stands before it.
pub open spec fn sorted(s: Seq<Candidate>) -> bool {
    forall|i: int, j: int| 0 <= i < j < s.len() ==> !precedes(#[trigger] s[j], #[trigger] s[i])
}

/// Whether each candidate's end fits in `usize`.
pub open spec fn ends_fit(s: Seq<Candidate>) -> bool {
    forall|i: int| 0 <= i < s.len() ==> #[trigger] s[i].position + s[i].length <= usize::MAX
}

/// The candidates of `m` in the resolver's order.
pub open spec fn sorted_of(m: Multiset<Candidate>) -> Seq<Candidate> {
    choose|s: Seq<Candidate>| sorted(s) && s.to_multiset() == m
}

/// Left-to-right sweep: a candidate is kept when it starts at or after the
/// end of the last kept one.
pub open spec fn sweep(s: Seq<Candidate>, last_end: int) -> Seq<Candidate>
    decreases s.len(),
{
    if s.len() == 0 {
        Seq::empty()
    } else if s[0].position >= last_end {
        seq![s[0]] + sweep(s.drop_first(), s[0].position + s[0].length)
    } else {
        sweep(s.drop_first(), last_end)
    }
}

/// The resolved list of a set of candidates.
pub open spec fn resolve(cands: Seq<Candidate>) -> Seq<Candidate> {
    sweep(sorted_of(cands.to_multiset()), 0)
}

/// Two orderings of the same candidates sort to the same sequence.
pub proof fn lemma_sorted_unique(s1: Seq<Candidate>, s2: Seq<Candidate>)
    requires
        sorted(s1),
        sorted(s2),
        s1.to_multiset() == s2.to_multiset(),
    ensures
        s1 == s2,
    decreases s1.len(),
{
    if s1.len() == 0 {
        assert(s2.to_multiset().len() == 0);
        assert(s1 =~= s2);
    } else {
        assert(s1.to_multiset().len() == s1.len());
        assert(s2.to_multiset().len() == s2.len());
        assert(s2.len() == s1.len());
        let a = s1[0];
        let b = s2[0];
        assert(s1.contains(a));
        assert(s2.contains(b));
        assert(s1.to_multiset().count(a) > 0);
        assert(s2.to_multiset().count(b) > 0);
        assert(s2.contains(a));
        assert(s1.contains(b));
        let j = choose|j: int| 0 <= j < s2.len() && s2[j] == a;
        let k = choose|k: int| 0 <= k < s1.len() && s1[k] == b;
        if j > 0 {
            assert(!precedes(s2[j], s2[0]));
        }
        if k > 0 {
            assert(!precedes(s1[k], s1[0]));
        }
        assert(a == b);
        assert(s1.remove(0) =~= s1.drop_first());
        assert(s2.remove(0) =~= s2.drop_first());
        assert(s1.drop_first().to_multiset() == s2.drop_first().to_multiset());
        lemma_sorted_unique(s1.drop_first(), s2.drop_first());
        assert(s1 =~= seq![a] + s1.drop_first());
        assert(s2 =~= seq![b] + s2.drop_first());
    }
}

/// The resolved list depends only on which candidates arrive, not on the
/// order in which they arrive.
pub proof fn lemma_resolve_order_independent(a: Seq<Candidate>, b: Seq<Candidate>)
    requires
        a.to_multiset() == b.to_multiset(),
    ensures
        resolve(a) == resolve(b),
{
}

/// Every candidate kept by a sweep from `last_end` starts at or after
/// `last_end`, and each kept candidate ends by the start of the next.
proof fn lemma_sweep_disjoint(s: Seq<Candidate>, last_end: int)
    ensures
        forall|i: int| 0 <= i < sweep(s, last_end).len() ==> #[trigger] sweep(s, last_end)[i].position >= last_end,
        forall|i: int, j: int|
            0 <= i < j < sweep(s, last_end).len() ==> #[trigger] sweep(s, last_end)[i].position
                + sweep(s, last_end)[i].length <= #[trigger] sweep(s, last_end)[j].position,
    decreases s.len(),
{
    if s.len() > 0 {
        if s[0].position >= last_end {
            let e = s[0].position + s[0].length;
            let rest = sweep(s.drop_first(), e);
            lemma_sweep_disjoint(s.drop_first(), e);
            let all = sweep(s, last_end);
            assert(all == seq![s[0]] + rest);
            assert forall|i: int| 0 < i < all.len() implies #[trigger] all[i] == rest[i - 1] by {}
            assert forall|i: int| 0 <= i < all.len() implies #[trigger] all[i].position
                >= last_end by {
                if i > 0 {
                    assert(all[i] == rest[i - 1]);
                }
            }
            assert forall|i: int, j: int| 0 <= i < j < all.len() implies #[trigger] all[i].position
                + all[i].length <= #[trigger] all[j].position by {
                assert(all[j] == rest[j - 1]);
                if i > 0 {
                    assert(all[i] == rest[i - 1]);
                }
            }
        } else {
            lemma_sweep_disjoint(s.drop_first(), last_end);
            assert(sweep(s, last_end) == sweep(s.drop_first(), last_end));
        }
    }
}

fn precedes_exec(a: &Candidate, b: &Candidate) -> (r: bool)
    ensures
        r == precedes(*a, *b),
{
    if a.position != b.position {
        a.position < b.position
    } else if a.score != b.score {
        a.score > b.score
    } else if a.length != b.length {
        a.length > b.length
    } else {
        a.period < b.period
    }
}

/// Sorts the candidates into the resolver's order.
fn sort_candidates(candidates: &Vec<Candidate>) -> (r: Vec<Candidate>)
    ensures
        sorted(r@),
        r@.to_multiset() == candidates@.to_multiset(),
{
    let mut out: Vec<Candidate> = Vec::new();
    let mut k: usize = 0;
    while k < candidates.len()
        invariant
            0 <= k <= candidates@.len(),
            sorted(out@),
            out@.to_multiset() == candidates@.subrange(0, k as int).to_multiset(),
        decreases candidates@.len() - k,
    {
        let c = candidates[k];
        let mut j: usize = 0;
        while j < out.len() && !precedes_exec(&c, &out[j])
            invariant
                0 <= j <= out@.len(),
                forall|i: int| 0 <= i < j ==> !precedes(c, #[trigger] out@[i]),
            decreases out@.len() - j,
        {
            j = j + 1;
        }
        let ghost before = out@;
        out.insert(j, c);
        proof {
            assert forall|x: int, y: int| 0 <= x < y < out@.len() implies !precedes(
                #[trigger] out@[y],
                #[trigger] out@[x],
            ) by {
                if y < j {
                    assert(out@[x] == before[x] && out@[y] == before[y]);
                } else if y == j {
                    assert(out@[x] == before[x]);
                } else if x == j {
                    assert(out@[y] == before[y - 1]);
                    assert(precedes(c, before[j as int]));
                    if y - 1 > j {
                        assert(!precedes(before[y - 1], before[j as int]));
                    }
                } else if x < j {
                    assert(out@[x] == before[x] && out@[y] == before[y - 1]);
                } else {
                    assert(out@[x] == before[x - 1] && out@[y] == before[y - 1]);
                }
            }
            assert(candidates@.subrange(0, k as int + 1) =~= candidates@.subrange(0, k as int).push(
                c,
            ));
        }
        k = k + 1;
    }
    assert(candidates@.subrange(0, candidates@.len() as int) =~= candidates@);
    out
}

/// Merges candidates from independent chunks into one list: sorted by
/// position ascending, score descending, length descending (period
/// ascending last), then swept left to right, keeping a candidate only when
/// it starts at or after the end of the last kept one. The result is ordered
/// by position, pairwise disjoint, and the same for any arrival order.
pub fn resolve_overlaps(candidates: &Vec<Candidate>) -> (r: Vec<Candidate>)
    requires
        ends_fit(candidates@),
    ensures
        r@ == resolve(candidates@),
        forall|i: int, j: int|
            0 <= i < j < r@.len() ==> #[trigger] r@[i].position + r@[i].length
                <= #[trigger] r@[j].position,
{
    let sorted_cands = sort_candidates(candidates);
    let ghost s = sorted_cands@;
    proof {
        let chosen = sorted_of(candidates@.to_multiset());
        assert(sorted(s) && s.to_multiset() == candidates@.to_multiset());
        lemma_sorted_unique(chosen, s);
        assert forall|i: int| 0 <= i < s.len() implies #[trigger] s[i].position + s[i].length
            <= usize::MAX by {
            assert(s.to_multiset().count(s[i]) > 0);
            assert(candidates@.contains(s[i]));
            let w = choose|w: int| 0 <= w < candidates@.len() && candidates@[w] == s[i];
            assert(candidates@[w].position + candidates@[w].length <= usize::MAX);
        }
    }
    let mut out: Vec<Candidate> = Vec::new();
    let mut last_end: usize = 0;
    let mut k: usize = 0;
    assert(s.subrange(0, s.len() as int) =~= s);
    assert(out@ + sweep(s, 0) =~= sweep(s, 0));
    while k < sorted_cands.len()
        invariant
            s == sorted_cands@,
            0 <= k <= s.len(),
            ends_fit(s),
            out@ + sweep(s.subrange(k as int, s.len() as int), last_end as int) == sweep(s, 0),
        decreases s.len() - k,
    {
        let c = sorted_cands[k];
        let ghost rest = s.subrange(k as int, s.len() as int);
        assert(rest.drop_first() =~= s.subrange(k as int + 1, s.len() as int));
        assert(rest[0] == c);
        if c.position >= last_end {
            let ghost prev = out@;
            out.push(c);
            last_end = c.position + c.length;
            assert(prev + (seq![c] + sweep(rest.drop_first(), last_end as int)) =~= out@ + sweep(
                rest.drop_first(),
                last_end as int,
            ));
        }
        k = k + 1;
    }
    assert(s.subrange(s.len() as int, s.len() as int) =~= Seq::<Candidate>::empty());
    assert(out@ =~= sweep(s, 0));
    proof {
        lemma_sweep_disjoint(s, 0);
    }
    out
}

} // verus!
