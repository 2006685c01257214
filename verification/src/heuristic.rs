//! Arbitrage heuristic: charge when the hour's price is in its day's cheap
//! third, discharge when it is in the expensive third, hold otherwise.
//! Thresholds are computed per calendar day, never across day boundaries.

use vstd::prelude::*;
use crate::cost::{
    bounded_series, hour_cost, hour_cost_bound, lemma_hour_cost_bound, spec_hour_cost, MAX_COEFF,
    MAX_ENERGY, MAX_HOURS,
};
use crate::percentile::{daily_percentiles, spec_percentiles};
use crate::strategy::{spec_max, spec_min, StrategyResult};

verus! {

/// Day-start indices are valid for a timeline of `t` hours: non-decreasing,
/// starting at hour 0, none past the end, and present whenever there is at
/// least one hour.
pub open spec fn valid_boundaries(bounds: Seq<usize>, t: int) -> bool {
    &&& (t > 0 ==> bounds.len() > 0)
    &&& (bounds.len() > 0 ==> bounds[0] == 0)
    &&& forall|i: int, j: int|
        #![trigger bounds[i], bounds[j]]
        0 <= i <= j < bounds.len() ==> bounds[i] as int <= bounds[j] as int
    &&& forall|i: int| 0 <= i < bounds.len() ==> #[trigger] bounds[i] as int <= t
}

/// The day an hour belongs to: the last day whose start is at or before it.
pub open spec fn day_of(bounds: Seq<usize>, h: int) -> int
    decreases bounds.len(),
{
    if bounds.len() == 0 {
        0
    } else if bounds.last() as int <= h {
        bounds.len() - 1
    } else {
        day_of(bounds.drop_last(), h)
    }
}

/// End (exclusive) of day `i` in a timeline of `t` hours.
pub open spec fn day_end(bounds: Seq<usize>, t: int, i: int) -> int {
    if i + 1 < bounds.len() {
        bounds[i + 1] as int
    } else {
        t
    }
}

/// Every timeline hour falls inside the day `day_of` assigns to it.
pub proof fn lemma_day_of_range(bounds: Seq<usize>, t: int, h: int)
    requires
        valid_boundaries(bounds, t),
        0 <= h < t,
    ensures
        0 <= day_of(bounds, h) < bounds.len(),
        bounds[day_of(bounds, h)] as int <= h,
        h < day_end(bounds, t, day_of(bounds, h)),
    decreases bounds.len(),
{
    if bounds.last() as int <= h {
    } else {
        let sub = bounds.drop_last();
        assert(bounds[0] as int == 0);
        assert(bounds.len() >= 2);
        let t2 = bounds.last() as int;
        assert(valid_boundaries(sub, t2));
        lemma_day_of_range(sub, t2, h);
        let d = day_of(sub, h);
        assert(day_of(bounds, h) == d);
        assert(sub[d] == bounds[d]);
        if d + 1 < sub.len() {
            assert(day_end(sub, t2, d) == sub[d + 1] as int == bounds[d + 1] as int);
        } else {
            assert(d + 1 == sub.len());
            assert(day_end(sub, t2, d) == t2 == bounds[d + 1] as int);
        }
    }
}

/// An hour inside day `i`'s range is assigned to day `i`.
pub proof fn lemma_day_of_eq(bounds: Seq<usize>, t: int, h: int, i: int)
    requires
        valid_boundaries(bounds, t),
        0 <= i < bounds.len(),
        bounds[i] as int <= h,
        h < day_end(bounds, t, i),
        0 <= h < t,
    ensures
        day_of(bounds, h) == i,
    decreases bounds.len(),
{
    if bounds.last() as int <= h {
        if i < bounds.len() - 1 {
            assert(bounds[i + 1] as int <= bounds.len() - 1 < bounds.len());
            assert(bounds[i + 1] as int <= bounds[bounds.len() - 1] as int);
            assert(false);
        }
    } else {
        let sub = bounds.drop_last();
        assert(i != bounds.len() - 1);
        let t2 = bounds.last() as int;
        assert(valid_boundaries(sub, t2));
        assert(sub[i] == bounds[i]);
        if i + 1 < sub.len() {
            assert(day_end(sub, t2, i) == bounds[i + 1] as int == day_end(bounds, t, i));
        } else {
            assert(i + 1 == sub.len());
            assert(day_end(bounds, t, i) == bounds[i + 1] as int == t2);
        }
        assert(h < t2);
        lemma_day_of_eq(sub, t2, h, i);
    }
}

/// The prices of one day within the flattened timeline.
pub open spec fn day_prices(price: Seq<i64>, bounds: Seq<usize>, t: int, i: int) -> Seq<i64> {
    price.subrange(bounds[i] as int, day_end(bounds, t, i))
}

/// The `(p33, p67)` thresholds governing one timeline hour.
pub open spec fn hour_thresholds(price: Seq<i64>, bounds: Seq<usize>, t: int, h: int) -> (
    i64,
    i64,
) {
    spec_percentiles(day_prices(price, bounds, t, day_of(bounds, h)))
}

/// The `(charge, discharge)` the arbitrage rule picks for one hour. Ties at
/// the thresholds favor charging.
pub open spec fn heur_action(
    price: int,
    p33: int,
    p67: int,
    soc: int,
    max_power: int,
    soc_min: int,
    soc_max: int,
) -> (int, int) {
    if price <= p33 {
        (spec_max(spec_min(max_power, soc_max - soc), 0), 0)
    } else if price >= p67 {
        (0, spec_max(spec_min(max_power, soc - soc_min), 0))
    } else {
        (0, 0)
    }
}

/// `(SoC, accumulated cost)` after the first `k` hours of the arbitrage
/// simulation.
pub open spec fn heur_state(
    net: Seq<i64>,
    price: Seq<i64>,
    bounds: Seq<usize>,
    max_power: int,
    soc_min: int,
    soc_max: int,
    export_coeff: int,
    initial_soc: int,
    k: int,
) -> (int, int)
    decreases k,
{
    if k <= 0 {
        (initial_soc, 0)
    } else {
        let prev = heur_state(
            net,
            price,
            bounds,
            max_power,
            soc_min,
            soc_max,
            export_coeff,
            initial_soc,
            k - 1,
        );
        let th = hour_thresholds(price, bounds, net.len() as int, k - 1);
        let act = heur_action(
            price[k - 1] as int,
            th.0 as int,
            th.1 as int,
            prev.0,
            max_power,
            soc_min,
            soc_max,
        );
        (
            prev.0 + act.0 - act.1,
            prev.1 + spec_hour_cost(net[k - 1] as int, act.0, act.1, price[k - 1] as int, export_coeff),
        )
    }
}

/// Forward simulation of the arbitrage strategy.
///
/// The SoC trace and total cost are exactly the fold of [`heur_action`] over
/// the timeline under the per-day thresholds, and the trace stays within
/// `[soc_min, soc_max]` whenever the initial SoC does.
pub fn run_heuristic(
    net_load: &Vec<i64>,
    price: &Vec<i64>,
    max_power: i64,
    soc_min_wh: i64,
    soc_max_wh: i64,
    export_coeff: i64,
    initial_soc_wh: i64,
    day_boundaries: &Vec<usize>,
) -> (r: StrategyResult)
    requires
        bounded_series(net_load@, price@),
        net_load@.len() <= MAX_HOURS,
        valid_boundaries(day_boundaries@, net_load@.len() as int),
        0 <= max_power <= MAX_ENERGY,
        -MAX_ENERGY <= soc_min_wh <= MAX_ENERGY,
        -MAX_ENERGY <= soc_max_wh <= MAX_ENERGY,
        -MAX_COEFF <= export_coeff <= MAX_COEFF,
        -MAX_ENERGY <= initial_soc_wh <= MAX_ENERGY,
    ensures
        r.soc@.len() == net_load@.len(),
        forall|k: int|
            0 <= k < net_load@.len() ==> #[trigger] r.soc@[k] as int == heur_state(
                net_load@,
                price@,
                day_boundaries@,
                max_power as int,
                soc_min_wh as int,
                soc_max_wh as int,
                export_coeff as int,
                initial_soc_wh as int,
                k + 1,
            ).0,
        r.total_cost as int == heur_state(
            net_load@,
            price@,
            day_boundaries@,
            max_power as int,
            soc_min_wh as int,
            soc_max_wh as int,
            export_coeff as int,
            initial_soc_wh as int,
            net_load@.len() as int,
        ).1,
        soc_min_wh <= initial_soc_wh <= soc_max_wh ==> forall|k: int|
            0 <= k < r.soc@.len() ==> soc_min_wh <= #[trigger] r.soc@[k] <= soc_max_wh,
{
    let ghost gnet = net_load@;
    let ghost gprice = price@;
    let ghost gbounds = day_boundaries@;
    let ghost power = max_power as int;
    let ghost smin = soc_min_wh as int;
    let ghost smax = soc_max_wh as int;
    let ghost coeff = export_coeff as int;
    let ghost init = initial_soc_wh as int;
    let t = net_load.len();
    let n_days = day_boundaries.len();

    // Per-day (p33, p67) thresholds over each day's price slice.
    let mut thresholds: Vec<(i64, i64)> = Vec::new();
    let mut i: usize = 0;
    while i < n_days
        invariant
            gprice == price@,
            gbounds == day_boundaries@,
            gnet.len() == gprice.len(),
            gnet.len() == t <= MAX_HOURS,
            gbounds.len() == n_days,
            valid_boundaries(gbounds, t as int),
            0 <= i <= n_days,
            thresholds@.len() == i,
            forall|j: int|
                0 <= j < i ==> #[trigger] thresholds@[j] == spec_percentiles(
                    day_prices(gprice, gbounds, t as int, j),
                ),
        decreases n_days - i,
    {
        let start = day_boundaries[i];
        let end = if i + 1 < n_days {
            day_boundaries[i + 1]
        } else {
            t
        };
        assert(start <= end <= t);
        let mut day_vec: Vec<i64> = Vec::new();
        let mut h: usize = start;
        while h < end
            invariant
                gprice == price@,
                gprice.len() == t,
                start <= h <= end <= t,
                day_vec@ == gprice.subrange(start as int, h as int),
            decreases end - h,
        {
            day_vec.push(price[h]);
            proof {
                assert(day_vec@ =~= gprice.subrange(start as int, h as int + 1));
            }
            h = h + 1;
        }
        let th = daily_percentiles(&day_vec);
        thresholds.push(th);
        proof {
            assert(day_vec@ == day_prices(gprice, gbounds, t as int, i as int));
        }
        i = i + 1;
    }

    // Map each hour to its day's index for threshold lookup.
    let mut hour_day: Vec<usize> = Vec::new();
    let mut h: usize = 0;
    while h < t
        invariant
            0 <= h <= t,
            hour_day@.len() == h,
            forall|k: int| 0 <= k < h ==> #[trigger] hour_day@[k] == 0,
        decreases t - h,
    {
        hour_day.push(0);
        h = h + 1;
    }
    let mut i: usize = 0;
    while i < n_days
        invariant
            gbounds == day_boundaries@,
            gbounds.len() == n_days,
            valid_boundaries(gbounds, t as int),
            0 <= i <= n_days,
            hour_day@.len() == t,
            forall|k: int|
                0 <= k < t && k < (if i < n_days {
                    gbounds[i as int] as int
                } else {
                    t as int
                }) ==> #[trigger] hour_day@[k] as int == day_of(gbounds, k),
            forall|k: int| 0 <= k < t ==> #[trigger] hour_day@[k] < n_days || hour_day@[k] == 0,
        decreases n_days - i,
    {
        let start = day_boundaries[i];
        let end = if i + 1 < n_days {
            day_boundaries[i + 1]
        } else {
            t
        };
        assert(start <= end <= t);
        let mut h: usize = start;
        while h < end
            invariant
                gbounds == day_boundaries@,
                gbounds.len() == n_days,
                valid_boundaries(gbounds, t as int),
                0 <= i < n_days,
                start == gbounds[i as int],
                end == day_end(gbounds, t as int, i as int),
                start <= h <= end <= t,
                hour_day@.len() == t,
                forall|k: int|
                    0 <= k < t && k < start as int ==> #[trigger] hour_day@[k] as int == day_of(
                        gbounds,
                        k,
                    ),
                forall|k: int| start <= k < h ==> #[trigger] hour_day@[k] == i,
                forall|k: int| 0 <= k < t ==> #[trigger] hour_day@[k] < n_days || hour_day@[k] == 0,
            decreases end - h,
        {
            hour_day.set(h, i);
            h = h + 1;
        }
        proof {
            let next_cut = if i + 1 < n_days {
                gbounds[i as int + 1] as int
            } else {
                t as int
            };
            assert(end as int == next_cut);
            assert forall|k: int| 0 <= k < t && k < next_cut implies #[trigger] hour_day@[k]
                as int == day_of(gbounds, k) by {
                if start as int <= k {
                    lemma_day_of_eq(gbounds, t as int, k, i as int);
                }
            }
        }
        i = i + 1;
    }
    proof {
        if t > 0 {
            assert(gbounds[0] as int == 0);
        }
        assert forall|k: int| 0 <= k < t implies #[trigger] hour_day@[k] as int == day_of(
            gbounds,
            k,
        ) by {}
    }

    // Forward simulation: charge or discharge by the price's place among its
    // day's thresholds.
    let mut soc: Vec<i64> = Vec::new();
    let mut current_soc: i64 = initial_soc_wh;
    let mut total: i128 = 0;
    let mut i: usize = 0;
    while i < t
        invariant
            bounded_series(gnet, gprice),
            gnet == net_load@,
            gprice == price@,
            gbounds == day_boundaries@,
            gnet.len() == t <= MAX_HOURS,
            gbounds.len() == n_days,
            valid_boundaries(gbounds, t as int),
            0 <= max_power <= MAX_ENERGY,
            -MAX_ENERGY <= soc_min_wh <= MAX_ENERGY,
            -MAX_ENERGY <= soc_max_wh <= MAX_ENERGY,
            -MAX_COEFF <= export_coeff <= MAX_COEFF,
            -MAX_ENERGY <= initial_soc_wh <= MAX_ENERGY,
            power == max_power as int,
            smin == soc_min_wh as int,
            smax == soc_max_wh as int,
            coeff == export_coeff as int,
            init == initial_soc_wh as int,
            thresholds@.len() == n_days,
            forall|j: int|
                0 <= j < n_days ==> #[trigger] thresholds@[j] == spec_percentiles(
                    day_prices(gprice, gbounds, t as int, j),
                ),
            hour_day@.len() == t,
            forall|k: int| 0 <= k < t ==> #[trigger] hour_day@[k] as int == day_of(gbounds, k),
            0 <= i <= t,
            current_soc as int == heur_state(
                gnet,
                gprice,
                gbounds,
                power,
                smin,
                smax,
                coeff,
                init,
                i as int,
            ).0,
            total as int == heur_state(
                gnet,
                gprice,
                gbounds,
                power,
                smin,
                smax,
                coeff,
                init,
                i as int,
            ).1,
            spec_min(init, smin) <= current_soc as int <= spec_max(init, smax),
            soc@.len() == i,
            forall|k: int|
                0 <= k < i ==> #[trigger] soc@[k] as int == heur_state(
                    gnet,
                    gprice,
                    gbounds,
                    power,
                    smin,
                    smax,
                    coeff,
                    init,
                    k + 1,
                ).0,
            soc_min_wh <= initial_soc_wh <= soc_max_wh ==> forall|k: int|
                0 <= k < i ==> soc_min_wh <= #[trigger] soc@[k] <= soc_max_wh,
            soc_min_wh <= initial_soc_wh <= soc_max_wh ==> soc_min_wh <= current_soc
                <= soc_max_wh,
            -(i as int) * hour_cost_bound() <= total as int <= (i as int) * hour_cost_bound(),
        decreases t - i,
    {
        let p = price[i];
        let d = hour_day[i];
        proof {
            lemma_day_of_range(gbounds, t as int, i as int);
        }
        let th = thresholds[d];
        let p33 = th.0;
        let p67 = th.1;
        proof {
            assert((p33, p67) == hour_thresholds(gprice, gbounds, t as int, i as int));
        }
        let charge: i64;
        let discharge: i64;
        if p <= p33 {
            let mut c = max_power;
            if soc_max_wh - current_soc < c {
                c = soc_max_wh - current_soc;
            }
            if c < 0 {
                c = 0;
            }
            charge = c;
            discharge = 0;
        } else if p >= p67 {
            let mut dch = max_power;
            if current_soc - soc_min_wh < dch {
                dch = current_soc - soc_min_wh;
            }
            if dch < 0 {
                dch = 0;
            }
            charge = 0;
            discharge = dch;
        } else {
            charge = 0;
            discharge = 0;
        }
        proof {
            assert((charge as int, discharge as int) == heur_action(
                gprice[i as int] as int,
                p33 as int,
                p67 as int,
                current_soc as int,
                power,
                smin,
                smax,
            ));
            lemma_hour_cost_bound(
                gnet[i as int] as int,
                charge as int,
                discharge as int,
                gprice[i as int] as int,
                coeff,
            );
        }
        current_soc = current_soc + charge - discharge;
        soc.push(current_soc);
        let c = hour_cost(net_load[i], charge, discharge, p, export_coeff);
        total = total + c;
        i = i + 1;
        proof {
            assert((i as int) * hour_cost_bound() == (i as int - 1) * hour_cost_bound()
                + hour_cost_bound()) by (nonlinear_arith);
        }
    }
    StrategyResult { soc, total_cost: total }
}

} // verus!
