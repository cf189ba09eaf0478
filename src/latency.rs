use vstd::prelude::*;

verus! {

/// The number of non-zero samples.
pub open spec fn count_nz(s: Seq<u32>) -> nat
    decreases s.len(),
{
    if s.len() == 0 {
        0
    } else {
        count_nz(s.drop_last()) + if s.last() != 0 {
            1nat
        } else {
            0nat
        }
    }
}

/// The number of non-zero samples below `v`.
pub open spec fn count_lt(s: Seq<u32>, v: u32) -> nat
    decreases s.len(),
{
    if s.len() == 0 {
        0
    } else {
        count_lt(s.drop_last(), v) + if s.last() != 0 && s.last() < v {
            1nat
        } else {
            0nat
        }
    }
}

/// The number of non-zero samples at most `v`.
pub open spec fn count_le(s: Seq<u32>, v: u32) -> nat
    decreases s.len(),
{
    if s.len() == 0 {
        0
    } else {
        count_le(s.drop_last(), v) + if s.last() != 0 && s.last() <= v {
            1nat
        } else {
            0nat
        }
    }
}

/// The sum of the samples.
pub open spec fn sum_nz(s: Seq<u32>) -> int
    decreases s.len(),
{
    if s.len() == 0 {
        0
    } else {
        sum_nz(s.drop_last()) + s.last()
    }
}

/// The smallest non-zero sample (`u32::MAX` where there is none).
pub open spec fn min_nz(s: Seq<u32>) -> u32
    decreases s.len(),
{
    if s.len() == 0 {
        u32::MAX
    } else {
        let m = min_nz(s.drop_last());
        if s.last() != 0 && s.last() < m {
            s.last()
        } else {
            m
        }
    }
}

/// The largest sample (zero where there is none).
pub open spec fn max_nz(s: Seq<u32>) -> u32
    decreases s.len(),
{
    if s.len() == 0 {
        0
    } else {
        let m = max_nz(s.drop_last());
        if s.last() > m {
            s.last()
        } else {
            m
        }
    }
}

/// `v` is a non-zero sample that stands at index `n / 2` once the `n`
/// non-zero samples are sorted.
pub open spec fn is_median(s: Seq<u32>, v: u32) -> bool {
    &&& v != 0
    &&& s.contains(v)
    &&& count_lt(s, v) <= count_nz(s) / 2
    &&& count_nz(s) / 2 < count_le(s, v)
}

/// The median of the non-zero samples, zero where there is none.
pub open spec fn median_of(s: Seq<u32>) -> u32 {
    if count_nz(s) == 0 {
        0
    } else {
        choose|v: u32| is_median(s, v)
    }
}

proof fn lemma_counts_step(s: Seq<u32>, i: int)
    requires
        0 <= i < s.len(),
    ensures
        s.take(i + 1).drop_last() == s.take(i),
        s.take(i + 1).last() == s[i],
{
    assert(s.take(i + 1).drop_last() =~= s.take(i));
}

proof fn lemma_count_le_lt(s: Seq<u32>, a: u32, b: u32)
    requires
        a < b,
    ensures
        count_le(s, a) <= count_lt(s, b),
    decreases s.len(),
{
    if s.len() > 0 {
        lemma_count_le_lt(s.drop_last(), a, b);
    }
}

proof fn lemma_count_bounds(s: Seq<u32>, v: u32)
    ensures
        count_lt(s, v) <= count_le(s, v) <= count_nz(s) <= s.len(),
    decreases s.len(),
{
    if s.len() > 0 {
        lemma_count_bounds(s.drop_last(), v);
    }
}

/// With no sample strictly between `v` and `w`, the samples below `w` are
/// those at most `v`.
proof fn lemma_count_gap(s: Seq<u32>, v: u32, w: u32)
    requires
        v < w,
        forall|i: int| 0 <= i < s.len() && s[i] != 0 ==> !(v < #[trigger] s[i] && s[i] < w),
    ensures
        count_lt(s, w) == count_le(s, v),
    decreases s.len(),
{
    if s.len() > 0 {
        assert forall|i: int| 0 <= i < s.drop_last().len() && s.drop_last()[i] != 0 implies !(v
            < #[trigger] s.drop_last()[i] && s.drop_last()[i] < w) by {
            assert(s.drop_last()[i] == s[i]);
        }
        lemma_count_gap(s.drop_last(), v, w);
    }
}

/// Where fewer than all non-zero samples are at most `v`, there is a
/// smallest non-zero sample above `v`.
proof fn lemma_min_above(s: Seq<u32>, v: u32) -> (w: u32)
    requires
        count_le(s, v) < count_nz(s),
    ensures
        w > v,
        s.contains(w),
        forall|i: int| 0 <= i < s.len() && s[i] != 0 && #[trigger] s[i] > v ==> s[i] >= w,
    decreases s.len(),
{
    let t = s.drop_last();
    let l = s.last();
    if count_le(t, v) < count_nz(t) {
        let w0 = lemma_min_above(t, v);
        assert(t.contains(w0));
        let j = choose|j: int| 0 <= j < t.len() && t[j] == w0;
        assert(s[j] == w0);
        let w = if l != 0 && l > v && l < w0 {
            l
        } else {
            w0
        };
        assert forall|i: int| 0 <= i < s.len() && s[i] != 0 && #[trigger] s[i] > v implies s[i]
            >= w by {
            if i < s.len() - 1 {
                assert(s[i] == t[i]);
            }
        }
        if w == l {
            assert(s[s.len() - 1] == l);
        }
        w
    } else {
        lemma_count_bounds(t, v);
        assert(l != 0 && l > v);
        assert forall|i: int| 0 <= i < s.len() && s[i] != 0 && #[trigger] s[i] > v implies s[i]
            >= l by {
            if i < s.len() - 1 {
                assert(s[i] == t[i]);
                lemma_no_sample_above(t, v, i);
            }
        }
        assert(s[s.len() - 1] == l);
        l
    }
}

/// Where every non-zero sample is at most `v`, none is above it.
proof fn lemma_no_sample_above(s: Seq<u32>, v: u32, i: int)
    requires
        count_le(s, v) >= count_nz(s),
        0 <= i < s.len(),
        s[i] != 0,
    ensures
        s[i] <= v,
    decreases s.len(),
{
    let t = s.drop_last();
    lemma_count_bounds(t, v);
    if i < s.len() - 1 {
        assert(s[i] == t[i]);
        lemma_no_sample_above(t, v, i);
    }
}

/// Two medians of the same samples are equal.
proof fn lemma_median_unique(s: Seq<u32>, a: u32, b: u32)
    requires
        is_median(s, a),
        is_median(s, b),
    ensures
        a == b,
{
    if a < b {
        lemma_count_le_lt(s, a, b);
    } else if b < a {
        lemma_count_le_lt(s, b, a);
    }
}

/// Counts the non-zero samples below and at most `v`.
fn count_around(s: &[u32; 60], v: u32) -> (r: (u32, u32))
    ensures
        r.0 == count_lt(s@, v),
        r.1 == count_le(s@, v),
{
    let mut lt: u32 = 0;
    let mut le: u32 = 0;
    let mut i: usize = 0;
    while i < 60
        invariant
            i <= 60,
            s@.len() == 60,
            lt == count_lt(s@.take(i as int), v),
            le == count_le(s@.take(i as int), v),
        decreases 60 - i,
    {
        proof {
            lemma_counts_step(s@, i as int);
            lemma_count_bounds(s@.take(i as int), v);
        }
        let x = s[i];
        if x != 0 && x < v {
            lt = lt + 1;
        }
        if x != 0 && x <= v {
            le = le + 1;
        }
        i = i + 1;
    }
    proof {
        assert(s@.take(60) =~= s@);
    }
    (lt, le)
}

/// The median of the non-zero samples of a latency ring, zero where all
/// samples are zero.
pub fn median_latency(s: &[u32; 60]) -> (r: u32)
    ensures
        r == median_of(s@),
        count_nz(s@) > 0 ==> is_median(s@, r),
{
    let n = count_nonzero(s);
    if n == 0 {
        return 0;
    }
    let half = n / 2;
    let mut best: u32 = 0;
    let mut i: usize = 0;
    while i < 60
        invariant
            i <= 60,
            s@.len() == 60,
            n == count_nz(s@),
            half == n / 2,
            best == 0 || (s@.contains(best) && count_lt(s@, best) <= half),
            forall|j: int|
                0 <= j < i && s@[j] != 0 && count_lt(s@, #[trigger] s@[j]) <= half ==> s@[j]
                    <= best,
        decreases 60 - i,
    {
        let x = s[i];
        if x != 0 && x > best {
            let (lt, _le) = count_around(s, x);
            if lt <= half {
                best = x;
                proof {
                    assert(s@[i as int] == x);
                }
            }
        }
        i = i + 1;
    }
    proof {
        // the smallest non-zero sample has nothing below it, so `best` is set
        lemma_count_le_zero(s@);
        let m = lemma_min_above(s@, 0);
        let k = choose|k: int| 0 <= k < s@.len() && s@[k] == m;
        assert forall|j: int| 0 <= j < s@.len() && s@[j] != 0 implies !(0 < #[trigger] s@[j]
            && s@[j] < m) by {}
        lemma_count_gap(s@, 0, m);
        assert(count_le(s@, 0) == 0) by {
            lemma_count_le_zero(s@);
        }
        assert(s@[k] <= best);
        assert(best != 0);
        if count_le(s@, best) <= half {
            lemma_count_bounds(s@, best);
            let w = lemma_min_above(s@, best);
            let kw = choose|kw: int| 0 <= kw < s@.len() && s@[kw] == w;
            assert forall|j: int| 0 <= j < s@.len() && s@[j] != 0 implies !(best
                < #[trigger] s@[j] && s@[j] < w) by {}
            lemma_count_gap(s@, best, w);
            assert(s@[kw] <= best);
        }
        assert(is_median(s@, best));
        lemma_median_unique(s@, best, median_of(s@));
    }
    best
}

proof fn lemma_count_le_zero(s: Seq<u32>)
    ensures
        count_le(s, 0) == 0,
    decreases s.len(),
{
    if s.len() > 0 {
        lemma_count_le_zero(s.drop_last());
    }
}

/// The number of non-zero samples of a latency ring.
pub fn count_nonzero(s: &[u32; 60]) -> (r: u32)
    ensures
        r == count_nz(s@),
{
    let mut n: u32 = 0;
    let mut i: usize = 0;
    while i < 60
        invariant
            i <= 60,
            s@.len() == 60,
            n == count_nz(s@.take(i as int)),
            n <= i,
        decreases 60 - i,
    {
        proof {
            lemma_counts_step(s@, i as int);
        }
        if s[i] != 0 {
            n = n + 1;
        }
        i = i + 1;
    }
    proof {
        assert(s@.take(60) =~= s@);
    }
    n
}

proof fn lemma_sum_bound(s: Seq<u32>)
    ensures
        0 <= sum_nz(s) <= s.len() * u32::MAX,
    decreases s.len(),
{
    if s.len() > 0 {
        lemma_sum_bound(s.drop_last());
    }
}

/// The sum, the smallest and the largest of the non-zero samples of a
/// latency ring.
pub fn sample_extremes(s: &[u32; 60]) -> (r: (u64, u32, u32))
    ensures
        r.0 == sum_nz(s@),
        r.1 == min_nz(s@),
        r.2 == max_nz(s@),
{
    let mut sum: u64 = 0;
    let mut lo: u32 = u32::MAX;
    let mut hi: u32 = 0;
    let mut i: usize = 0;
    while i < 60
        invariant
            i <= 60,
            s@.len() == 60,
            sum == sum_nz(s@.take(i as int)),
            lo == min_nz(s@.take(i as int)),
            hi == max_nz(s@.take(i as int)),
        decreases 60 - i,
    {
        proof {
            lemma_counts_step(s@, i as int);
            lemma_sum_bound(s@.take(i as int));
        }
        let x = s[i];
        sum = sum + x as u64;
        if x != 0 && x < lo {
            lo = x;
        }
        if x > hi {
            hi = x;
        }
        i = i + 1;
    }
    proof {
        assert(s@.take(60) =~= s@);
    }
    (sum, lo, hi)
}

} // verus!
