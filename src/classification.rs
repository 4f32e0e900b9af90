use vstd::prelude::*;
use vstd::string::StrSliceExecFns;

use crate::CoreError;

verus! {

// ---------------------------------------------------------------------------
// Sorting a working copy of the sample.
// ---------------------------------------------------------------------------

pub open spec fn sorted(s: Seq<i64>) -> bool {
    forall|i: int, j: int| 0 <= i <= j < s.len() ==> s[i] <= s[j]
}

/// `s` with `x` placed after every element of `s` that is not greater than `x`.
pub open spec fn insert_sorted(s: Seq<i64>, x: i64) -> Seq<i64>
    decreases s.len(),
{
    if s.len() == 0 {
        seq![x]
    } else if s.last() <= x {
        s.push(x)
    } else {
        insert_sorted(s.drop_last(), x).push(s.last())
    }
}

/// The sample in non-decreasing order.
pub open spec fn sort_spec(v: Seq<i64>) -> Seq<i64>
    decreases v.len(),
{
    if v.len() == 0 {
        Seq::empty()
    } else {
        insert_sorted(sort_spec(v.drop_last()), v.last())
    }
}

proof fn lemma_insert_sorted_at(s: Seq<i64>, x: i64, j: int)
    requires
        sorted(s),
        0 <= j <= s.len(),
        forall|i: int| 0 <= i < j ==> s[i] <= x,
        j < s.len() ==> s[j] > x,
    ensures
        insert_sorted(s, x) == s.insert(j, x),
    decreases s.len(),
{
    if s.len() == 0 {
        assert(s.insert(j, x) =~= seq![x]);
    } else if s.last() <= x {
        assert(j == s.len());
        assert(s.insert(j, x) =~= s.push(x));
    } else {
        let d = s.drop_last();
        assert(j < s.len());
        lemma_insert_sorted_at(d, x, j);
        assert(d.insert(j, x).push(s.last()) =~= s.insert(j, x));
    }
}

proof fn lemma_insert_sorted(s: Seq<i64>, x: i64)
    requires
        sorted(s),
    ensures
        sorted(insert_sorted(s, x)),
        insert_sorted(s, x).to_multiset() == s.to_multiset().insert(x),
        insert_sorted(s, x).len() == s.len() + 1,
    decreases s.len(),
{
    broadcast use vstd::seq_lib::group_to_multiset_ensures;

    if s.len() == 0 {
        assert(seq![x] =~= Seq::<i64>::empty().push(x));
    } else if s.last() <= x {
    } else {
        let d = s.drop_last();
        lemma_insert_sorted(d, x);
        let r = insert_sorted(d, x);
        assert(d.push(s.last()) =~= s);
        assert(r.push(s.last()).to_multiset() =~= s.to_multiset().insert(x));
        let rp = r.push(s.last());
        assert forall|i: int, k: int| 0 <= i <= k < rp.len() implies #[trigger] rp[i] <= #[trigger] rp[k] by {
            if k == r.len() && i < r.len() {
                assert(r.to_multiset().count(r[i]) > 0);
                assert(d.to_multiset().insert(x).count(r[i]) > 0);
                if r[i] != x {
                    assert(d.contains(r[i]));
                }
            }
        }
    }
}

proof fn lemma_sort_spec(v: Seq<i64>)
    ensures
        sorted(sort_spec(v)),
        sort_spec(v).to_multiset() == v.to_multiset(),
        sort_spec(v).len() == v.len(),
    decreases v.len(),
{
    broadcast use vstd::seq_lib::group_to_multiset_ensures;

    if v.len() > 0 {
        lemma_sort_spec(v.drop_last());
        lemma_insert_sorted(sort_spec(v.drop_last()), v.last());
        assert(v.drop_last().push(v.last()) =~= v);
    }
}

/// Every element of the sample lies between the first and the last element of its
/// sorted copy, and both of those are elements of the sample.
proof fn lemma_sort_spec_ends(v: Seq<i64>)
    requires
        v.len() > 0,
    ensures
        v.contains(sort_spec(v)[0]),
        v.contains(sort_spec(v).last()),
        forall|k: int| 0 <= k < v.len() ==> sort_spec(v)[0] <= #[trigger] v[k] <= sort_spec(v).last(),
{
    broadcast use vstd::seq_lib::group_to_multiset_ensures;

    let s = sort_spec(v);
    lemma_sort_spec(v);
    assert(s.contains(s[0]));
    assert(s.contains(s.last()));
    assert(v.to_multiset().count(s[0]) > 0);
    assert(v.to_multiset().count(s.last()) > 0);
    assert forall|k: int| 0 <= k < v.len() implies s[0] <= #[trigger] v[k] <= s.last() by {
        assert(v.contains(v[k]));
        assert(s.to_multiset().count(v[k]) > 0);
        assert(s.contains(v[k]));
    }
}

/// A sorted copy of `values`.
fn sorted_copy(values: &Vec<i64>) -> (r: Vec<i64>)
    ensures
        r@ == sort_spec(values@),
{
    let mut r: Vec<i64> = Vec::new();
    let mut i: usize = 0;
    while i < values.len()
        invariant
            0 <= i <= values.len(),
            r@ == sort_spec(values@.take(i as int)),
        decreases values.len() - i,
    {
        let x = values[i];
        proof {
            lemma_sort_spec(values@.take(i as int));
        }
        let mut j: usize = 0;
        while j < r.len() && r[j] <= x
            invariant
                0 <= j <= r.len(),
                sorted(r@),
                forall|k: int| 0 <= k < j ==> r@[k] <= x,
            decreases r.len() - j,
        {
            j += 1;
        }
        proof {
            lemma_insert_sorted_at(r@, x, j as int);
            assert(values@.take(i + 1).drop_last() =~= values@.take(i as int));
        }
        r.insert(j, x);
        i += 1;
    }
    assert(values@.take(values.len() as int) =~= values@);
    r
}

// ---------------------------------------------------------------------------
// Quantiles.
// ---------------------------------------------------------------------------

/// Position (counted from one) in the sorted sample of the `i`-th inner boundary of
/// `k` quantile classes over `n` values: `floor(i * n / k + 0.49)`.
pub open spec fn quantile_index(i: int, n: int, k: int) -> int {
    (100 * i * n + 49 * k) / (100 * k)
}

/// Quantile classes can be formed: the first inner boundary falls on a value.
pub open spec fn quantiles_defined(n: int, k: int) -> bool {
    k >= 1 && n >= 1 && 100 * n + 49 * k >= 100 * k
}

/// Quantile boundaries of the sorted sample `s` for `k` classes.
pub open spec fn quantile_bounds(s: Seq<i64>, k: int) -> Seq<i64> {
    Seq::new(
        (k + 1) as nat,
        |i: int|
            if i == 0 {
                s[0]
            } else if i == k {
                s.last()
            } else {
                s[quantile_index(i, s.len() as int, k) - 1]
            },
    )
}

proof fn lemma_quantile_index_range(i: int, n: int, k: int)
    requires
        quantiles_defined(n, k),
        1 <= i < k,
    ensures
        1 <= quantile_index(i, n, k) <= n,
        i + 1 < k ==> quantile_index(i, n, k) <= quantile_index(i + 1, n, k),
{
    let d = 100 * k;
    assert(100 * i * n + 49 * k >= 100 * n + 49 * k) by (nonlinear_arith)
        requires
            i >= 1,
            n >= 1,
    ;
    assert(100 * (i + 1) * n + 49 * k >= 100 * i * n + 49 * k) by (nonlinear_arith)
        requires
            n >= 1,
    ;
    assert(100 * i * n + 49 * k <= d * n + d - 1) by (nonlinear_arith)
        requires
            i <= k - 1,
            n >= 1,
            k >= 1,
            d == 100 * k,
    ;
    vstd::arithmetic::div_mod::lemma_div_is_ordered(100 * n + 49 * k, 100 * i * n + 49 * k, d);
    vstd::arithmetic::div_mod::lemma_div_is_ordered(d, 100 * n + 49 * k, d);
    vstd::arithmetic::div_mod::lemma_div_is_ordered(
        100 * i * n + 49 * k,
        100 * (i + 1) * n + 49 * k,
        d,
    );
    vstd::arithmetic::div_mod::lemma_div_is_ordered(100 * i * n + 49 * k, d * n + d - 1, d);
    vstd::arithmetic::div_mod::lemma_div_multiples_vanish_fancy(n, d - 1, d);
    vstd::arithmetic::div_mod::lemma_div_multiples_vanish_fancy(1, 0, d);
    assert(d * n + d - 1 == d * n + (d - 1));
}

proof fn lemma_quantile_bounds_sorted(s: Seq<i64>, k: int)
    requires
        sorted(s),
        quantiles_defined(s.len() as int, k),
    ensures
        sorted(quantile_bounds(s, k)),
        quantile_bounds(s, k).len() == k + 1,
        quantile_bounds(s, k)[0] == s[0],
        quantile_bounds(s, k).last() == s.last(),
{
    let b = quantile_bounds(s, k);
    let n = s.len() as int;
    assert forall|i: int, j: int| 0 <= i <= j < b.len() implies #[trigger] b[i] <= #[trigger] b[j] by {
        if 0 < i && i < k {
            lemma_quantile_index_range(i, n, k);
        }
        if 0 < j && j < k {
            lemma_quantile_index_range(j, n, k);
        }
        if 0 < i && j < k {
            lemma_quantile_index_monotone(i, j, n, k);
        }
    }
}

proof fn lemma_quantile_index_monotone(i: int, j: int, n: int, k: int)
    requires
        quantiles_defined(n, k),
        1 <= i <= j < k,
    ensures
        quantile_index(i, n, k) <= quantile_index(j, n, k),
{
    assert(100 * i * n + 49 * k <= 100 * j * n + 49 * k) by (nonlinear_arith)
        requires
            i <= j,
            n >= 1,
    ;
    vstd::arithmetic::div_mod::lemma_div_is_ordered(100 * i * n + 49 * k, 100 * j * n + 49 * k, 100 * k);
}

fn quantiles(s: &Vec<i64>, nb_class: u32) -> (r: Vec<i64>)
    requires
        sorted(s@),
        quantiles_defined(s.len() as int, nb_class as int),
    ensures
        r@ == quantile_bounds(s@, nb_class as int),
{
    let n = s.len();
    let mut r: Vec<i64> = Vec::new();
    r.push(s[0]);
    let mut i: u32 = 1;
    while i < nb_class
        invariant
            1 <= i <= nb_class,
            n == s.len(),
            sorted(s@),
            quantiles_defined(n as int, nb_class as int),
            r@.len() == i,
            forall|t: int| 0 <= t < i ==> r@[t] == quantile_bounds(s@, nb_class as int)[t],
        decreases nb_class - i,
    {
        proof {
            lemma_quantile_index_range(i as int, n as int, nb_class as int);
        }
        proof {
            assert((i as u128) * (n as u128) <= 0x1_0000_0000u128 * 0x1_0000_0000_0000_0000u128)
                by (nonlinear_arith)
                requires
                    i < 0x1_0000_0000,
                    n < 0x1_0000_0000_0000_0000,
            ;
        }
        let prod: u128 = (i as u128) * (n as u128);
        let num: u128 = 100 * prod + 49 * (nb_class as u128);
        assert(num == 100 * i * n + 49 * nb_class) by (nonlinear_arith)
            requires
                prod == i * n,
                num == 100 * prod + 49 * nb_class,
        ;
        let qidx: u128 = num / (100 * (nb_class as u128));
        assert(qidx == quantile_index(i as int, n as int, nb_class as int));
        r.push(s[(qidx - 1) as usize]);
        i += 1;
    }
    r.push(s[n - 1]);
    assert(r@ =~= quantile_bounds(s@, nb_class as int));
    r
}

// ---------------------------------------------------------------------------
// Equal intervals.
// ---------------------------------------------------------------------------

/// Boundaries `min + i * (max - min) / k`, rounded down, of the sorted sample `s`.
/// The last one is `max` itself.
pub open spec fn equal_interval_bounds(s: Seq<i64>, k: int) -> Seq<i64> {
    Seq::new((k + 1) as nat, |i: int| (s[0] + (i * (s.last() - s[0])) / k) as i64)
}

proof fn lemma_equal_interval_step(i: int, j: int, d: int, k: int)
    requires
        0 <= i <= j <= k,
        k >= 1,
        d >= 0,
    ensures
        0 <= (i * d) / k <= (j * d) / k <= d,
{
    assert(0 <= i * d <= j * d <= k * d) by (nonlinear_arith)
        requires
            0 <= i <= j <= k,
            d >= 0,
    ;
    vstd::arithmetic::div_mod::lemma_div_is_ordered(0, i * d, k);
    vstd::arithmetic::div_mod::lemma_div_is_ordered(i * d, j * d, k);
    vstd::arithmetic::div_mod::lemma_div_is_ordered(j * d, k * d, k);
    vstd::arithmetic::div_mod::lemma_div_multiples_vanish_fancy(d, 0, k);
    assert(k * d == d * k) by (nonlinear_arith);
}

proof fn lemma_equal_interval_sorted(s: Seq<i64>, k: int)
    requires
        sorted(s),
        s.len() >= 1,
        k >= 1,
    ensures
        sorted(equal_interval_bounds(s, k)),
        equal_interval_bounds(s, k).len() == k + 1,
        equal_interval_bounds(s, k)[0] == s[0],
        equal_interval_bounds(s, k).last() == s.last(),
{
    let b = equal_interval_bounds(s, k);
    let d = s.last() - s[0];
    assert forall|i: int, j: int| 0 <= i <= j < b.len() implies #[trigger] b[i] <= #[trigger] b[j] by {
        lemma_equal_interval_step(i, j, d, k);
    }
    lemma_equal_interval_step(0, k, d, k);
    vstd::arithmetic::div_mod::lemma_div_multiples_vanish_fancy(d, 0, k);
    assert(k * d == d * k) by (nonlinear_arith);
    assert((0 * d) / k == 0);
}

fn equal_interval(s: &Vec<i64>, nb_class: u32) -> (r: Vec<i64>)
    requires
        sorted(s@),
        s.len() >= 1,
        nb_class >= 1,
    ensures
        r@ == equal_interval_bounds(s@, nb_class as int),
{
    let lo = s[0];
    let hi = s[s.len() - 1];
    assert(lo <= hi);
    let d: u128 = (hi as i128 - lo as i128) as u128;
    let mut r: Vec<i64> = Vec::new();
    let mut i: u64 = 0;
    while i <= nb_class as u64
        invariant
            0 <= i <= nb_class + 1,
            nb_class >= 1,
            s@.len() >= 1,
            lo == s@[0],
            hi == s@.last(),
            lo <= hi,
            d == hi - lo,
            r@.len() == i,
            forall|t: int| 0 <= t < i ==> r@[t] == equal_interval_bounds(s@, nb_class as int)[t],
        decreases nb_class + 1 - i,
    {
        proof {
            lemma_equal_interval_step(i as int, nb_class as int, d as int, nb_class as int);
            assert(i as u128 * d <= 0x1_0000_0000u128 * 0x1_0000_0000_0000_0000u128) by (nonlinear_arith)
                requires
                    i <= 0x1_0000_0000,
                    d < 0x1_0000_0000_0000_0000,
            ;
        }
        let q: u128 = (i as u128 * d) / (nb_class as u128);
        r.push((lo as i128 + q as i128) as i64);
        i += 1;
    }
    assert(r@ =~= equal_interval_bounds(s@, nb_class as int));
    r
}

// ---------------------------------------------------------------------------
// Head/tail breaks.
// ---------------------------------------------------------------------------

pub open spec fn sum(s: Seq<i64>) -> int
    decreases s.len(),
{
    if s.len() == 0 {
        0
    } else {
        sum(s.drop_last()) + s.last()
    }
}

/// The arithmetic mean of `s`, rounded down.
pub open spec fn mean(s: Seq<i64>) -> int {
    sum(s) / (s.len() as int)
}

/// The elements of `s` strictly greater than `m`, in their order.
pub open spec fn above(s: Seq<i64>, m: int) -> Seq<i64>
    decreases s.len(),
{
    if s.len() == 0 {
        s
    } else if s.last() > m {
        above(s.drop_last(), m).push(s.last())
    } else {
        above(s.drop_last(), m)
    }
}

/// The means emitted by the head/tail recursion after the mean of `s` itself: the
/// mean of the values above the mean of `s`, then the same for those values, until
/// fewer than two values lie above a mean.
pub open spec fn head_tail_means(s: Seq<i64>) -> Seq<i64>
    decreases s.len(),
{
    if s.len() == 0 {
        Seq::empty()
    } else {
        let w = above(s, mean(s));
        if w.len() == 0 {
            Seq::empty()
        } else if w.len() < 2 {
            seq![mean(w) as i64]
        } else {
            proof {
                lemma_above_mean_shorter(s);
            }
            seq![mean(w) as i64] + head_tail_means(w)
        }
    }
}

/// Head/tail boundaries of the sorted sample `s`: its minimum followed by the
/// successive means. A sample of equal values gets that value twice.
pub open spec fn head_tail_bounds(s: Seq<i64>) -> Seq<i64> {
    let e = head_tail_means(s);
    if e.len() == 0 {
        seq![s[0], mean(s) as i64]
    } else {
        seq![s[0]] + e
    }
}

proof fn lemma_sum_bounds(s: Seq<i64>, lo: int, hi: int)
    requires
        forall|k: int| 0 <= k < s.len() ==> lo <= #[trigger] s[k] <= hi,
    ensures
        s.len() * lo <= sum(s) <= s.len() * hi,
    decreases s.len(),
{
    if s.len() > 0 {
        let d = s.drop_last();
        lemma_sum_bounds(d, lo, hi);
        assert(s.len() * lo == d.len() * lo + lo) by (nonlinear_arith)
            requires
                s.len() == d.len() + 1,
        ;
        assert(s.len() * hi == d.len() * hi + hi) by (nonlinear_arith)
            requires
                s.len() == d.len() + 1,
        ;
    }
}

proof fn lemma_mean_bounds(s: Seq<i64>, lo: int, hi: int)
    requires
        s.len() > 0,
        forall|k: int| 0 <= k < s.len() ==> lo <= #[trigger] s[k] <= hi,
    ensures
        lo <= mean(s) <= hi,
{
    let n = s.len() as int;
    lemma_sum_bounds(s, lo, hi);
    vstd::arithmetic::div_mod::lemma_div_is_ordered(n * lo, sum(s), n);
    vstd::arithmetic::div_mod::lemma_div_is_ordered(sum(s), n * hi, n);
    vstd::arithmetic::div_mod::lemma_div_multiples_vanish_fancy(lo, 0, n);
    vstd::arithmetic::div_mod::lemma_div_multiples_vanish_fancy(hi, 0, n);
}

proof fn lemma_above_len(s: Seq<i64>, m: int)
    ensures
        above(s, m).len() <= s.len(),
        above(s, m).len() == s.len() ==> forall|k: int| 0 <= k < s.len() ==> #[trigger] s[k] > m,
    decreases s.len(),
{
    if s.len() > 0 {
        let d = s.drop_last();
        lemma_above_len(d, m);
        if above(s, m).len() == s.len() {
            assert forall|k: int| 0 <= k < s.len() implies #[trigger] s[k] > m by {
                if k < d.len() {
                    assert(d[k] == s[k]);
                }
            }
        }
    }
}

pub proof fn lemma_above_mean_shorter(s: Seq<i64>)
    requires
        s.len() > 0,
    ensures
        above(s, mean(s)).len() < s.len(),
{
    let n = s.len() as int;
    let m = mean(s);
    lemma_above_len(s, m);
    if above(s, m).len() == s.len() {
        lemma_sum_bounds(s, m + 1, i64::MAX as int);
        vstd::arithmetic::div_mod::lemma_fundamental_div_mod(sum(s), n);
        assert(0 <= sum(s) % n < n);
        assert(n * (m + 1) == n * m + n) by (nonlinear_arith);
        assert(n * m == n * (sum(s) / n));
    }
}

proof fn lemma_above_suffix(s: Seq<i64>, m: int, j: int)
    requires
        sorted(s),
        0 <= j <= s.len(),
        forall|i: int| 0 <= i < j ==> #[trigger] s[i] <= m,
        j < s.len() ==> s[j] > m,
    ensures
        above(s, m) == s.subrange(j, s.len() as int),
    decreases s.len(),
{
    if s.len() > 0 {
        let d = s.drop_last();
        if s.last() > m {
            assert(j < s.len());
            lemma_above_suffix(d, m, j);
            assert(d.subrange(j, d.len() as int).push(s.last()) =~= s.subrange(j, s.len() as int));
        } else {
            assert(j == s.len());
            lemma_above_suffix(d, m, d.len() as int);
            assert(s.subrange(j, s.len() as int) =~= d.subrange(d.len() as int, d.len() as int));
        }
    } else {
        assert(s.subrange(j, s.len() as int) =~= s);
    }
}

proof fn lemma_above_sorted(s: Seq<i64>, m: int)
    requires
        sorted(s),
    ensures
        sorted(above(s, m)),
        forall|t: int| 0 <= t < above(s, m).len() ==> #[trigger] above(s, m)[t] > m,
        above(s, m).len() > 0 ==> above(s, m).last() == s.last(),
        above(s, m).len() == 0 ==> s.len() == 0 || s.last() <= m,
        s.len() > 0 && s[0] <= m ==> above(s, m).len() < s.len(),
    decreases s.len(),
{
    if s.len() > 0 {
        let d = s.drop_last();
        lemma_above_sorted(d, m);
        lemma_above_len(d, m);
        if s.last() > m {
            let a = above(d, m);
            assert forall|i: int, k: int| 0 <= i <= k < a.len() + 1 implies #[trigger] a.push(
                s.last(),
            )[i] <= #[trigger] a.push(s.last())[k] by {
                if k == a.len() && i < a.len() {
                    assert(a.last() == d.last());
                }
            }
            if s[0] <= m {
                assert(d.len() > 0);
                assert(d[0] <= m);
            }
        }
    }
}

proof fn lemma_head_tail_means(c: Seq<i64>)
    requires
        sorted(c),
        c.len() > 0,
    ensures
        head_tail_means(c).len() == 0 ==> c.last() <= mean(c),
        head_tail_means(c).len() > 0 ==> {
            let e = head_tail_means(c);
            &&& sorted(e)
            &&& forall|t: int| 0 <= t < e.len() ==> mean(c) < #[trigger] e[t] <= c.last()
            &&& e.last() == c.last()
        },
    decreases c.len(),
{
    let m = mean(c);
    let w = above(c, m);
    lemma_mean_bounds(c, c[0] as int, c.last() as int);
    lemma_above_sorted(c, m);
    if w.len() > 0 {
        lemma_mean_bounds(w, m + 1, w.last() as int);
        assert(mean(w) as i64 == mean(w));
        if w.len() >= 2 {
            lemma_above_mean_shorter(c);
            lemma_head_tail_means(w);
            let h = head_tail_means(w);
            let e = seq![mean(w) as i64] + h;
            assert(head_tail_means(c) == e);
            if h.len() == 0 {
                assert(e =~= seq![mean(w) as i64]);
            } else {
                assert forall|i: int, k: int| 0 <= i <= k < e.len() implies #[trigger] e[i]
                    <= #[trigger] e[k] by {
                    if i > 0 {
                        assert(e[i] == h[i - 1]);
                        assert(e[k] == h[k - 1]);
                    } else if k > 0 {
                        assert(e[k] == h[k - 1]);
                    }
                }
                assert forall|t: int| 0 <= t < e.len() implies m < #[trigger] e[t] <= c.last() by {
                    if t > 0 {
                        assert(e[t] == h[t - 1]);
                    }
                }
            }
        } else {
            assert(w.len() == 1);
            assert(w.drop_last().len() == 0);
            assert(sum(w.drop_last()) == 0);
            assert(sum(w) == sum(w.drop_last()) + w.last());
            assert(sum(w) == w[0]);
        }
    }
}

/// Boundaries of the head/tail method on a sorted sample, in order.
proof fn lemma_head_tail_bounds(s: Seq<i64>)
    requires
        sorted(s),
        s.len() > 0,
    ensures
        sorted(head_tail_bounds(s)),
        head_tail_bounds(s).len() >= 2,
        head_tail_bounds(s)[0] == s[0],
        head_tail_bounds(s).last() == s.last(),
{
    let e = head_tail_means(s);
    lemma_head_tail_means(s);
    lemma_mean_bounds(s, s[0] as int, s.last() as int);
    let b = head_tail_bounds(s);
    if e.len() > 0 {
        assert forall|i: int, k: int| 0 <= i <= k < b.len() implies #[trigger] b[i] <= #[trigger] b[k] by {
            if i > 0 {
                assert(b[i] == e[i - 1]);
            }
            if k > 0 {
                assert(b[k] == e[k - 1]);
            }
        }
    }
}

/// The mean of a sorted, non-empty sample.
fn mean_of(w: &Vec<i64>) -> (m: i64)
    requires
        sorted(w@),
        w.len() > 0,
    ensures
        m == mean(w@),
{
    let n = w.len();
    let lo = w[0];
    let hi = w[n - 1];
    let ghost span: int = hi - lo;
    let mut acc: u128 = 0;
    let mut i: usize = 0;
    while i < n
        invariant
            0 <= i <= n,
            n == w.len(),
            lo == w@[0],
            hi == w@[n - 1],
            sorted(w@),
            span == hi - lo,
            acc == sum(w@.take(i as int)) - i * lo,
            acc <= i * span,
        decreases n - i,
    {
        proof {
            assert(w@.take(i + 1).drop_last() =~= w@.take(i as int));
            assert(lo <= w@[i as int] <= hi);
            assert((i + 1) * span == i * span + span) by (nonlinear_arith);
            assert((i + 1) * lo == i * lo + lo) by (nonlinear_arith);
            assert((i + 1) * span <= 0x1_0000_0000_0000_0000 * 0xFFFF_FFFF_FFFF_FFFF) by (nonlinear_arith)
                requires
                    i + 1 <= 0x1_0000_0000_0000_0000,
                    0 <= span <= 0xFFFF_FFFF_FFFF_FFFF,
            ;
        }
        acc = acc + (w[i] as i128 - lo as i128) as u128;
        i += 1;
    }
    assert(w@.take(n as int) =~= w@);
    let q: u128 = acc / (n as u128);
    proof {
        vstd::arithmetic::div_mod::lemma_hoist_over_denominator(acc as int, lo as int, n as nat);
        assert(acc + lo * n == sum(w@)) by (nonlinear_arith)
            requires
                acc == sum(w@) - n * lo,
        ;
        vstd::arithmetic::div_mod::lemma_div_is_ordered(acc as int, n * span, n as int);
        vstd::arithmetic::div_mod::lemma_div_multiples_vanish_fancy(span, 0, n as int);
        assert(n * span == span * n) by (nonlinear_arith);
    }
    (lo as i128 + q as i128) as i64
}

/// The elements of a sorted sample greater than `m`.
fn above_vec(w: &Vec<i64>, m: i64) -> (r: Vec<i64>)
    requires
        sorted(w@),
    ensures
        r@ == above(w@, m as int),
{
    let mut j: usize = 0;
    while j < w.len() && w[j] <= m
        invariant
            0 <= j <= w.len(),
            forall|i: int| 0 <= i < j ==> #[trigger] w@[i] <= m,
        decreases w.len() - j,
    {
        j += 1;
    }
    proof {
        lemma_above_suffix(w@, m as int, j as int);
    }
    let mut r: Vec<i64> = Vec::new();
    let mut k: usize = j;
    while k < w.len()
        invariant
            j <= k <= w.len(),
            r@ == w@.subrange(j as int, k as int),
        decreases w.len() - k,
    {
        r.push(w[k]);
        k += 1;
        assert(r@ =~= w@.subrange(j as int, k as int));
    }
    r
}

fn head_tail(s: &Vec<i64>) -> (r: Vec<i64>)
    requires
        sorted(s@),
        s.len() > 0,
    ensures
        r@ == head_tail_bounds(s@),
{
    let m0 = mean_of(s);
    let w0 = above_vec(s, m0);
    proof {
        lemma_above_sorted(s@, m0 as int);
    }
    let mut r: Vec<i64> = Vec::new();
    r.push(s[0]);
    if w0.len() == 0 {
        r.push(m0);
        assert(r@ =~= head_tail_bounds(s@));
        return r;
    }
    let mw = mean_of(&w0);
    r.push(mw);
    let mut w = w0;
    let mut more: bool = w.len() >= 2;
    assert(r@ + (if more { head_tail_means(w@) } else { Seq::empty() }) =~= head_tail_bounds(s@));
    while more
        invariant
            sorted(w@),
            w@.len() > 0,
            more ==> w@.len() >= 2,
            r@ + (if more { head_tail_means(w@) } else { Seq::empty() }) == head_tail_bounds(s@),
        decreases (if more { w@.len() + 1 } else { 0 }),
    {
        let m = mean_of(&w);
        let nw = above_vec(&w, m);
        proof {
            lemma_above_sorted(w@, m as int);
            lemma_above_mean_shorter(w@);
        }
        if nw.len() == 0 {
            assert(head_tail_means(w@) =~= Seq::<i64>::empty());
            more = false;
        } else {
            let mn = mean_of(&nw);
            let ghost old_r = r@;
            r.push(mn);
            let ghost tail = if nw@.len() >= 2 { head_tail_means(nw@) } else { Seq::empty() };
            proof {
                assert(head_tail_means(w@) == seq![mn] + tail);
                assert(r@ + tail =~= old_r + (seq![mn] + tail));
            }
            more = nw.len() >= 2;
            w = nw;
        }
    }
    assert(r@ + Seq::<i64>::empty() =~= r@);
    r
}

// ---------------------------------------------------------------------------
// Methods and their names.
// ---------------------------------------------------------------------------

/// The classification methods.
#[derive(PartialEq, Eq, Structural, Debug, Clone, Copy)]
pub enum Classification {
    EqualInterval,
    HeadTail,
    Jenks,
    Quantiles,
}

/// `c` is the lower-case letter `l` in either case: `l` itself, its ASCII capital, or,
/// for `k`, the Kelvin sign (U+212A), whose lower case is `k`.
pub open spec fn letter_matches(c: char, l: char) -> bool {
    ||| c == l
    ||| ('a' <= l && l <= 'z' && c as u32 + 32 == l as u32)
    ||| (l == 'k' && c as u32 == 0x212A)
}

/// `s` spells the lower-case `name`, ignoring the case of its ASCII letters.
pub open spec fn matches_name(s: Seq<char>, name: Seq<char>) -> bool {
    s.len() == name.len() && forall|i: int| 0 <= i < s.len() ==> letter_matches(#[trigger] s[i], name[i])
}

/// The method that a configuration names.
pub open spec fn classification_named(s: Seq<char>) -> Option<Classification> {
    if matches_name(s, "jenks"@) {
        Some(Classification::Jenks)
    } else if matches_name(s, "quantiles"@) || matches_name(s, "quantile"@) {
        Some(Classification::Quantiles)
    } else if matches_name(s, "equal interval"@) || matches_name(s, "equal_interval"@) {
        Some(Classification::EqualInterval)
    } else if matches_name(s, "headtail"@) {
        Some(Classification::HeadTail)
    } else {
        None
    }
}

fn matches_ignore_case(s: &str, name: &str) -> (r: bool)
    ensures
        r == matches_name(s@, name@),
{
    let n = s.unicode_len();
    if n != name.unicode_len() {
        return false;
    }
    let mut i: usize = 0;
    while i < n
        invariant
            0 <= i <= n,
            n == s@.len(),
            n == name@.len(),
            forall|j: int| 0 <= j < i ==> letter_matches(#[trigger] s@[j], name@[j]),
        decreases n - i,
    {
        let c = s.get_char(i);
        let l = name.get_char(i);
        if !(c == l || ('a' <= l && l <= 'z' && c as u32 + 32 == l as u32) || (l == 'k' && c as u32
            == 0x212A)) {
            assert(!letter_matches(s@[i as int], name@[i as int]));
            return false;
        }
        i += 1;
    }
    true
}

impl Classification {
    /// The method named `name`: "jenks", "quantiles" or "quantile", "equal interval"
    /// or "equal_interval", "headtail", in any case (a name whose lower case is one of
    /// these).
    pub fn from_name(name: &str) -> (r: Option<Classification>)
        ensures
            r == classification_named(name@),
    {
        if matches_ignore_case(name, "jenks") {
            Some(Classification::Jenks)
        } else if matches_ignore_case(name, "quantiles") || matches_ignore_case(name, "quantile") {
            Some(Classification::Quantiles)
        } else if matches_ignore_case(name, "equal interval") || matches_ignore_case(
            name,
            "equal_interval",
        ) {
            Some(Classification::EqualInterval)
        } else if matches_ignore_case(name, "headtail") {
            Some(Classification::HeadTail)
        } else {
            None
        }
    }
}

// ---------------------------------------------------------------------------
// Classifications of a sample.
// ---------------------------------------------------------------------------

/// Boundaries of `k` classes of the sorted sample `s` by `method`. Natural breaks
/// come from outside the core and have none here.
pub open spec fn method_bounds(method: Classification, s: Seq<i64>, k: int) -> Seq<i64> {
    match method {
        Classification::EqualInterval => equal_interval_bounds(s, k),
        Classification::Quantiles => quantile_bounds(s, k),
        Classification::HeadTail => head_tail_bounds(s),
        Classification::Jenks => Seq::empty(),
    }
}

/// The boundaries are in order, at least two, and enclose every value of the sample.
pub open spec fn covers(bounds: Seq<i64>, values: Seq<i64>) -> bool {
    &&& bounds.len() >= 2
    &&& sorted(bounds)
    &&& forall|k: int| 0 <= k < values.len() ==> bounds[0] <= #[trigger] values[k] <= bounds.last()
}

/// A class index of each boundary pair fits in a `u32`.
pub open spec fn indexable(bounds: Seq<i64>) -> bool {
    bounds.len() <= 0x1_0000_0001
}

/// The sample and the class count admit `method`.
pub open spec fn classifiable(method: Classification, n: int, k: int) -> bool {
    &&& n >= 1
    &&& k >= 1
    &&& method == Classification::Quantiles ==> quantiles_defined(n, k)
}

/// The index of the first class, scanning from class `i`, whose upper boundary is not
/// below `v`; `bounds.len() - 1` when there is none.
pub open spec fn first_class(bounds: Seq<i64>, v: i64, i: int) -> int
    decreases bounds.len() - i,
{
    if i < 0 || i >= bounds.len() - 1 {
        bounds.len() - 1
    } else if v <= bounds[i + 1] {
        i
    } else {
        first_class(bounds, v, i + 1)
    }
}

/// The class of `v`: the smallest `i` with `v <= bounds[i + 1]`, if any.
pub open spec fn class_of(bounds: Seq<i64>, v: i64) -> Option<int> {
    let i = first_class(bounds, v, 0);
    if 0 <= i < bounds.len() - 1 {
        Some(i)
    } else {
        None
    }
}

proof fn lemma_first_class(bounds: Seq<i64>, v: i64, i: int)
    requires
        0 <= i <= bounds.len() - 1,
    ensures
        i <= first_class(bounds, v, i) <= bounds.len() - 1,
        first_class(bounds, v, i) < bounds.len() - 1 ==> v <= bounds[first_class(bounds, v, i) + 1],
        forall|j: int| i <= j < first_class(bounds, v, i) ==> v > #[trigger] bounds[j + 1],
        v <= bounds.last() && i < bounds.len() - 1 ==> first_class(bounds, v, i) < bounds.len() - 1,
    decreases bounds.len() - i,
{
    if i < bounds.len() - 1 && v > bounds[i + 1] {
        lemma_first_class(bounds, v, i + 1);
    }
}

/// Over boundaries in order, a value gets a class exactly when it is not above the
/// last boundary; the class is the first whose upper boundary is not below the value.
pub proof fn lemma_class_of(bounds: Seq<i64>, v: i64)
    requires
        bounds.len() >= 2,
        sorted(bounds),
    ensures
        class_of(bounds, v) is Some <==> v <= bounds.last(),
        class_of(bounds, v) is Some ==> {
            let i = class_of(bounds, v)->0;
            &&& v <= bounds[i + 1]
            &&& forall|j: int| 0 <= j < i ==> v > #[trigger] bounds[j + 1]
        },
{
    lemma_first_class(bounds, v, 0);
    if bounds.len() >= 2 && class_of(bounds, v) is None {
        assert(v > bounds[bounds.len() - 1]);
    }
}

/// Every value of a sample that its boundaries cover falls in one of the classes.
pub proof fn lemma_sample_values_classified(bounds: Seq<i64>, values: Seq<i64>, k: int)
    requires
        covers(bounds, values),
        0 <= k < values.len(),
    ensures
        class_of(bounds, values[k]) is Some,
        0 <= class_of(bounds, values[k])->0 < bounds.len() - 1,
{
    lemma_first_class(bounds, values[k], 0);
}

/// For every method computed in the core, the boundaries are in order, begin at the
/// least value of the sample and end at its greatest, so that they enclose it; there is
/// one more boundary than classes, except for head/tail breaks, whose number of
/// classes follows the sample.
pub proof fn lemma_method_bounds_cover(method: Classification, values: Seq<i64>, k: int)
    requires
        classifiable(method, values.len() as int, k),
        method != Classification::Jenks,
    ensures
        covers(method_bounds(method, sort_spec(values), k), values),
        method_bounds(method, sort_spec(values), k)[0] == sort_spec(values)[0],
        method_bounds(method, sort_spec(values), k).last() == sort_spec(values).last(),
        method != Classification::HeadTail ==> method_bounds(method, sort_spec(values), k).len()
            == k + 1,
{
    let s = sort_spec(values);
    lemma_sort_spec(values);
    lemma_sort_spec_ends(values);
    match method {
        Classification::Quantiles => lemma_quantile_bounds_sorted(s, k),
        Classification::EqualInterval => lemma_equal_interval_sorted(s, k),
        _ => lemma_head_tail_bounds(s),
    }
}

proof fn lemma_head_tail_means_len(c: Seq<i64>)
    requires
        c.len() > 0,
    ensures
        head_tail_means(c).len() <= c.len() - 1,
    decreases c.len(),
{
    let w = above(c, mean(c));
    lemma_above_mean_shorter(c);
    if w.len() >= 2 {
        lemma_head_tail_means_len(w);
    }
}

/// Head/tail breaks follow the sample alone: the class count asked for does not change
/// them, they are in order and enclose the sample, and there are at most one more of
/// them than values (the recursion ends).
pub proof fn lemma_head_tail_ignores_class_count(values: Seq<i64>, k1: int, k2: int)
    requires
        values.len() >= 1,
        k1 >= 1,
        k2 >= 1,
    ensures
        method_bounds(Classification::HeadTail, sort_spec(values), k1) == method_bounds(
            Classification::HeadTail,
            sort_spec(values),
            k2,
        ),
        method_bounds(Classification::HeadTail, sort_spec(values), k1).len() <= values.len() + 1,
        covers(method_bounds(Classification::HeadTail, sort_spec(values), k1), values),
{
    lemma_method_bounds_cover(Classification::HeadTail, values, k1);
    lemma_sort_spec(values);
    lemma_head_tail_means_len(sort_spec(values));
}

/// A sample with the boundaries of its classes.
pub struct Classif {
    /// The sample, in the order in which it was given.
    pub values: Vec<i64>,
    /// Class `i` holds the values in `(bounds[i], bounds[i + 1]]`; the first also holds `bounds[0]`.
    pub bounds: Vec<i64>,
    pub min: i64,
    pub max: i64,
}

impl Classif {
    /// The boundaries cover the sample, the extremes are those of the sample, and a
    /// class index fits in a `u32`.
    pub open spec fn wf(&self) -> bool {
        &&& self.values@.len() > 0
        &&& covers(self.bounds@, self.values@)
        &&& indexable(self.bounds@)
        &&& self.min == sort_spec(self.values@)[0]
        &&& self.max == sort_spec(self.values@).last()
    }

    /// Classifies `values` into `nb_class` classes by `type_classif`. Head/tail breaks
    /// take as many classes as the sample calls for. Natural breaks are computed
    /// outside the core and handed to `from_natural_breaks`.
    pub fn new(nb_class: u32, values: Vec<i64>, type_classif: Classification) -> (r: Result<
        Classif,
        CoreError,
    >)
        ensures
            match r {
                Ok(c) => {
                    &&& classifiable(type_classif, values@.len() as int, nb_class as int)
                    &&& type_classif != Classification::Jenks
                    &&& c.values@ == values@
                    &&& c.bounds@ == method_bounds(type_classif, sort_spec(values@), nb_class as int)
                    &&& c.wf()
                    &&& type_classif != Classification::HeadTail ==> c.bounds@.len() == nb_class + 1
                },
                Err(e) => {
                    ||| (!classifiable(type_classif, values@.len() as int, nb_class as int) && e
                        == CoreError::InvalidInput)
                    ||| (classifiable(type_classif, values@.len() as int, nb_class as int)
                        && type_classif == Classification::Jenks && e
                        == CoreError::UnsupportedMethod)
                    ||| (classifiable(type_classif, values@.len() as int, nb_class as int)
                        && type_classif == Classification::HeadTail && !indexable(
                        method_bounds(type_classif, sort_spec(values@), nb_class as int),
                    ) && e == CoreError::InvalidInput)
                },
            },
    {
        let n = values.len();
        if n == 0 || nb_class == 0 {
            return Err(CoreError::InvalidInput);
        }
        if type_classif == Classification::Quantiles {
            let lhs: u128 = 100 * (n as u128) + 49 * (nb_class as u128);
            if lhs < 100 * (nb_class as u128) {
                return Err(CoreError::InvalidInput);
            }
        }
        if type_classif == Classification::Jenks {
            return Err(CoreError::UnsupportedMethod);
        }
        let v = sorted_copy(&values);
        proof {
            lemma_sort_spec(values@);
            lemma_sort_spec_ends(values@);
        }
        let bounds = match type_classif {
            Classification::Quantiles => quantiles(&v, nb_class),
            Classification::EqualInterval => equal_interval(&v, nb_class),
            _ => head_tail(&v),
        };
        proof {
            lemma_method_bounds_cover(type_classif, values@, nb_class as int);
        }
        if bounds.len() as u64 > 0x1_0000_0001u64 {
            return Err(CoreError::InvalidInput);
        }
        let min = v[0];
        let max = v[n - 1];
        Ok(Classif { values, bounds, min, max })
    }

    /// Classifies `values` by boundaries computed outside the core (natural breaks):
    /// they must be `nb_class + 1` values in order that enclose the sample.
    pub fn from_natural_breaks(nb_class: u32, values: Vec<i64>, breaks: Vec<i64>) -> (r: Result<
        Classif,
        CoreError,
    >)
        ensures
            match r {
                Ok(c) => {
                    &&& values@.len() >= 1
                    &&& nb_class >= 1
                    &&& breaks@.len() == nb_class + 1
                    &&& covers(breaks@, values@)
                    &&& c.values@ == values@
                    &&& c.bounds@ == breaks@
                    &&& c.wf()
                },
                Err(e) => {
                    &&& e == CoreError::InvalidInput
                    &&& !(values@.len() >= 1 && nb_class >= 1 && breaks@.len() == nb_class + 1
                        && covers(breaks@, values@))
                },
            },
    {
        let n = values.len();
        if n == 0 || nb_class == 0 || breaks.len() as u64 != nb_class as u64 + 1 {
            return Err(CoreError::InvalidInput);
        }
        let mut i: usize = 1;
        while i < breaks.len()
            invariant
                1 <= i <= breaks.len(),
                forall|a: int, b: int| 0 <= a <= b < i ==> #[trigger] breaks@[a] <= #[trigger] breaks@[b],
            decreases breaks.len() - i,
        {
            if breaks[i - 1] > breaks[i] {
                return Err(CoreError::InvalidInput);
            }
            i += 1;
        }
        let lo = breaks[0];
        let hi = breaks[breaks.len() - 1];
        let mut k: usize = 0;
        while k < n
            invariant
                0 <= k <= n,
                n == values.len(),
                lo == breaks@[0],
                hi == breaks@.last(),
                forall|t: int| 0 <= t < k ==> lo <= #[trigger] values@[t] <= hi,
            decreases n - k,
        {
            if values[k] < lo || values[k] > hi {
                return Err(CoreError::InvalidInput);
            }
            k += 1;
        }
        let v = sorted_copy(&values);
        proof {
            lemma_sort_spec(values@);
        }
        let min = v[0];
        let max = v[n - 1];
        Ok(Classif { values, bounds: breaks, min, max })
    }

    /// The class of `value`: the smallest `i` with `value <= bounds[i + 1]`, or `None`
    /// when `value` is above the last boundary.
    pub fn get_class_index(&self, value: i64) -> (r: Option<u32>)
        requires
            indexable(self.bounds@),
        ensures
            r == match class_of(self.bounds@, value) {
                Some(i) => Some(i as u32),
                None => None::<u32>,
            },
    {
        let len = self.bounds.len();
        let mut i: usize = 0;
        while len > 0 && i < len - 1
            invariant
                0 <= i,
                len == self.bounds@.len(),
                indexable(self.bounds@),
                i < len ==> first_class(self.bounds@, value, 0) == first_class(self.bounds@, value, i as int),
                i >= len ==> len == 0,
            decreases len - i,
        {
            if value <= self.bounds[i + 1] {
                return Some(i as u32);
            }
            i += 1;
        }
        None
    }

    /// The class of each of `values`, or `LookupFailure` when one is above the last
    /// boundary.
    pub fn class_indices(&self, values: &Vec<i64>) -> (r: Result<Vec<u32>, CoreError>)
        requires
            indexable(self.bounds@),
        ensures
            match r {
                Ok(ix) => {
                    &&& ix@.len() == values@.len()
                    &&& forall|k: int| 0 <= k < values@.len() ==> class_of(self.bounds@, #[trigger] values@[k]) == Some(ix@[k] as int)
                },
                Err(e) => {
                    &&& e == CoreError::LookupFailure
                    &&& exists|k: int| 0 <= k < values@.len() && class_of(self.bounds@, #[trigger] values@[k]) is None
                },
            },
    {
        let mut out: Vec<u32> = Vec::new();
        let mut k: usize = 0;
        while k < values.len()
            invariant
                0 <= k <= values.len(),
                indexable(self.bounds@),
                out@.len() == k,
                forall|t: int| 0 <= t < k ==> class_of(self.bounds@, #[trigger] values@[t]) == Some(out@[t] as int),
            decreases values.len() - k,
        {
            match self.get_class_index(values[k]) {
                Some(i) => {
                    proof {
                        lemma_first_class(self.bounds@, values@[k as int], 0);
                    }
                    out.push(i);
                },
                None => {
                    return Err(CoreError::LookupFailure);
                },
            }
            k += 1;
        }
        Ok(out)
    }
}

} // verus!
