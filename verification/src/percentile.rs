//! Daily price-percentile thresholds for the arbitrage heuristic.
//!
//! For `n` prices the `k`-th percentile is the value at index
//! `(n - 1) * k / 100` of the ascending sort (a truncating convention, not
//! the interpolating one some numeric libraries use). An empty day yields
//! `(0, 0)`.

use vstd::prelude::*;
use vstd::relations::{sorted_by, total_ordering};
use vstd::seq_lib::lemma_sorted_unique;
use vstd::arithmetic::div_mod::{lemma_div_by_multiple, lemma_div_is_ordered};
use crate::cost::MAX_HOURS;

verus! {

/// The ascending order on prices used by the percentile computation.
pub open spec fn price_leq() -> spec_fn(i64, i64) -> bool {
    |a: i64, b: i64| a <= b
}

/// The day's prices in ascending order.
pub open spec fn sorted_prices(s: Seq<i64>) -> Seq<i64> {
    s.sort_by(price_leq())
}

/// Index of the `k`-th percentile among `n` sorted values.
pub open spec fn pct_index(n: int, k: int) -> int {
    (n - 1) * k / 100
}

/// The `(p33, p67)` thresholds of one day's price sequence.
pub open spec fn spec_percentiles(s: Seq<i64>) -> (i64, i64) {
    if s.len() == 0 {
        (0i64, 0i64)
    } else {
        (
            sorted_prices(s)[pct_index(s.len() as int, 33)],
            sorted_prices(s)[pct_index(s.len() as int, 67)],
        )
    }
}

/// `price_leq` is a total order, so the ascending sort of a day is unique.
pub proof fn lemma_price_leq_total()
    ensures
        total_ordering(price_leq()),
{
    let leq = price_leq();
    assert forall|x: i64, y: i64| #[trigger] leq(x, y) || #[trigger] leq(y, x) by {
        assert(x <= y || y <= x);
    }
}

/// A percentile index is a valid position: `0 <= (n-1)*k/100 < n` for
/// `n >= 1` and `0 <= k <= 100`.
pub proof fn lemma_pct_index_in_range(n: int, k: int)
    requires
        1 <= n,
        0 <= k <= 100,
    ensures
        0 <= pct_index(n, k) < n,
{
    assert((n - 1) * k >= 0) by (nonlinear_arith)
        requires n >= 1 && k >= 0;
    assert((n - 1) * k <= (n - 1) * 100) by (nonlinear_arith)
        requires n >= 1 && k <= 100;
    lemma_div_is_ordered(0, (n - 1) * k, 100);
    lemma_div_is_ordered((n - 1) * k, (n - 1) * 100, 100);
    lemma_div_by_multiple(n - 1, 100);
}

/// Sort a copy of one day's prices ascending (selection sort).
pub fn sort_prices(v: &Vec<i64>) -> (s: Vec<i64>)
    ensures
        s@.len() == v@.len(),
        s@.to_multiset() == v@.to_multiset(),
        sorted_by(s@, price_leq()),
{
    broadcast use vstd::multiset::group_multiset_axioms;
    broadcast use vstd::seq_lib::group_to_multiset_ensures;

    let mut s: Vec<i64> = Vec::new();
    let mut i: usize = 0;
    while i < v.len()
        invariant
            0 <= i <= v@.len(),
            s@ == v@.subrange(0, i as int),
        decreases v@.len() - i,
    {
        s.push(v[i]);
        proof {
            assert(s@ =~= v@.subrange(0, i as int + 1));
        }
        i = i + 1;
    }
    proof {
        assert(s@ =~= v@);
    }
    let n = s.len();
    let mut i: usize = 0;
    while i < n
        invariant
            s@.len() == n == v@.len(),
            s@.to_multiset() == v@.to_multiset(),
            0 <= i <= n,
            forall|p: int, q: int| 0 <= p < q < i ==> s@[p] <= s@[q],
            forall|p: int, q: int| 0 <= p < i <= q < n ==> s@[p] <= s@[q],
        decreases n - i,
    {
        let mut m: usize = i;
        let mut j: usize = i + 1;
        while j < n
            invariant
                s@.len() == n,
                i <= m < j <= n,
                forall|q: int| i <= q < j ==> s@[m as int] <= s@[q],
            decreases n - j,
        {
            if s[j] < s[m] {
                m = j;
            }
            j = j + 1;
        }
        let ghost pre = s@;
        let a = s[i];
        let b = s[m];
        s.set(i, b);
        s.set(m, a);
        proof {
            assert(s@ =~= pre.update(i as int, b).update(m as int, a));
            let mid = pre.update(i as int, b);
            assert(pre[i as int] == a);
            assert(pre.contains(a));
            vstd::seq_lib::to_multiset_contains(pre, a);
            vstd::seq_lib::to_multiset_update(pre, i as int, b);
            vstd::seq_lib::to_multiset_update(mid, m as int, a);
            assert(mid[m as int] == b);
            assert(mid.to_multiset() == pre.to_multiset().insert(b).remove(pre[i as int]));
            assert(s@.to_multiset() == mid.to_multiset().insert(a).remove(b));
            assert(s@.to_multiset() =~= pre.to_multiset());
            assert forall|p: int, q: int| 0 <= p < q < i + 1 implies s@[p] <= s@[q] by {
                assert(s@[q] == pre[m as int] || s@[q] == pre[q]);
            }
            assert forall|p: int, q: int| 0 <= p < i + 1 <= q < n implies s@[p] <= s@[q] by {
                assert(s@[q] == pre[i as int] || s@[q] == pre[q]);
                assert(s@[p] == pre[m as int] || s@[p] == pre[p]);
            }
        }
        i = i + 1;
    }
    proof {
        let leq = price_leq();
        assert forall|p: int, q: int| 0 <= p < q < s@.len() implies #[trigger] leq(s@[p], s@[q]) by {
            assert(s@[p] <= s@[q]);
        }
    }
    s
}

/// Compute one day's `(p33, p67)` price thresholds.
pub fn daily_percentiles(prices: &Vec<i64>) -> (r: (i64, i64))
    requires
        prices@.len() <= MAX_HOURS,
    ensures
        r == spec_percentiles(prices@),
{
    let n = prices.len();
    if n == 0 {
        return (0, 0);
    }
    let sorted = sort_prices(prices);
    proof {
        lemma_price_leq_total();
        prices@.lemma_sort_by_ensures(price_leq());
        lemma_sorted_unique(sorted@, sorted_prices(prices@), price_leq());
        assert(sorted@ == sorted_prices(prices@));
        lemma_pct_index_in_range(n as int, 33);
        lemma_pct_index_in_range(n as int, 67);
    }
    let idx33 = (n - 1) * 33 / 100;
    let idx67 = (n - 1) * 67 / 100;
    (sorted[idx33], sorted[idx67])
}

} // verus!
