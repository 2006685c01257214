//! Orchestrator: flatten multi-day input into one contiguous timeline,
//! convert percentage SoC bounds into absolute energies, run the three
//! strategies and the baseline on the same data, and assemble the result.

use vstd::prelude::*;
use crate::cost::{
    bounded_series, lemma_mul_abs_bound, no_battery_cost, spec_baseline_cost, MAX_COEFF,
    MAX_ENERGY, MAX_HOURS, MAX_PRICE,
};
use vstd::arithmetic::div_mod::{lemma_div_by_multiple, lemma_div_is_ordered};
use crate::heuristic::{heur_state, run_heuristic, valid_boundaries};
use crate::optimal::{
    bin_soc, dp_input, dp_trace_bin, lemma_optimal_le_baseline, run_optimal, soc_range,
    spec_optimal_cost,
};
use crate::self_consumption::{run_self_consumption, sc_state};
use crate::strategy::StrategyResult;

verus! {

/// One day of hourly data: a date label, hourly net load (Wh; positive =
/// grid import, negative = surplus) and hourly spot prices, equally long.
pub struct DayRecord {
    pub date: String,
    pub net_load_w: Vec<i64>,
    pub price: Vec<i64>,
}

/// Battery configuration: capacity in Wh, hourly power limit in Wh, usable
/// SoC window as percentages of capacity, export revenue in permille.
pub struct BatteryParams {
    pub capacity_wh: i64,
    pub max_power_w: i64,
    pub soc_min_pct: i64,
    pub soc_max_pct: i64,
    pub export_coeff: i64,
}

/// Complete simulation result: the flattened timeline echoed back, one
/// [`StrategyResult`] per strategy, and the no-battery baseline cost.
pub struct SimResult {
    pub hours: usize,
    pub dates: Vec<String>,
    pub net_load_w: Vec<i64>,
    pub price: Vec<i64>,
    pub heuristic: StrategyResult,
    pub self_consumption: StrategyResult,
    pub optimal: StrategyResult,
    pub no_battery_cost: i128,
}

/// All days' net-load sequences, concatenated in order.
pub open spec fn flat_net(days: Seq<DayRecord>) -> Seq<i64>
    decreases days.len(),
{
    if days.len() == 0 {
        Seq::empty()
    } else {
        flat_net(days.drop_last()) + days.last().net_load_w@
    }
}

/// All days' price sequences, concatenated in order.
pub open spec fn flat_price(days: Seq<DayRecord>) -> Seq<i64>
    decreases days.len(),
{
    if days.len() == 0 {
        Seq::empty()
    } else {
        flat_price(days.drop_last()) + days.last().price@
    }
}

/// Starting offset of each day within the flattened timeline.
pub open spec fn spec_boundaries(days: Seq<DayRecord>) -> Seq<usize> {
    Seq::new(days.len(), |i: int| flat_net(days.subrange(0, i)).len() as usize)
}

/// The day sequences are well formed and within the library's bounds.
pub open spec fn valid_days(days: Seq<DayRecord>) -> bool {
    &&& forall|i: int|
        0 <= i < days.len() ==> (#[trigger] days[i].net_load_w@).len() == days[i].price@.len()
    &&& forall|i: int, k: int|
        0 <= i < days.len() && 0 <= k < days[i].net_load_w@.len() ==> -MAX_ENERGY
            <= #[trigger] days[i].net_load_w@[k] <= MAX_ENERGY
    &&& forall|i: int, k: int|
        0 <= i < days.len() && 0 <= k < days[i].price@.len() ==> -MAX_PRICE
            <= #[trigger] days[i].price@[k] <= MAX_PRICE
    &&& flat_net(days).len() <= MAX_HOURS
}

/// The parameters are within the library's bounds; percentages lie in
/// `[0, 100]`.
pub open spec fn valid_params(p: BatteryParams) -> bool {
    &&& 0 <= p.capacity_wh <= MAX_ENERGY
    &&& 0 <= p.max_power_w <= MAX_ENERGY
    &&& 0 <= p.soc_min_pct <= 100
    &&& 0 <= p.soc_max_pct <= 100
    &&& -MAX_COEFF <= p.export_coeff <= MAX_COEFF
}

/// Lower usable SoC, in Wh: `capacity * soc_min_pct / 100`.
pub open spec fn spec_soc_min(p: BatteryParams) -> int {
    p.capacity_wh as int * p.soc_min_pct as int / 100
}

/// Upper usable SoC, in Wh: `capacity * soc_max_pct / 100`.
pub open spec fn spec_soc_max(p: BatteryParams) -> int {
    p.capacity_wh as int * p.soc_max_pct as int / 100
}

/// A percentage of the capacity is between 0 and the capacity, and is
/// monotone in the percentage.
pub proof fn lemma_pct_of_capacity(capacity: int, lo_pct: int, hi_pct: int)
    requires
        0 <= capacity,
        0 <= lo_pct <= hi_pct <= 100,
    ensures
        0 <= capacity * lo_pct / 100 <= capacity * hi_pct / 100 <= capacity,
{
    assert(0 <= capacity * lo_pct) by (nonlinear_arith)
        requires 0 <= capacity && 0 <= lo_pct;
    assert(capacity * lo_pct <= capacity * hi_pct) by (nonlinear_arith)
        requires 0 <= capacity && lo_pct <= hi_pct;
    assert(capacity * hi_pct <= capacity * 100) by (nonlinear_arith)
        requires 0 <= capacity && hi_pct <= 100;
    lemma_div_is_ordered(0, capacity * lo_pct, 100);
    lemma_div_is_ordered(capacity * lo_pct, capacity * hi_pct, 100);
    lemma_div_is_ordered(capacity * hi_pct, capacity * 100, 100);
    lemma_div_by_multiple(capacity, 100);
}

/// Appending one day to a prefix extends the flattened sequences by that
/// day's data.
pub proof fn lemma_flat_unfold(days: Seq<DayRecord>, i: int)
    requires
        0 <= i < days.len(),
    ensures
        flat_net(days.subrange(0, i + 1)) == flat_net(days.subrange(0, i))
            + days[i].net_load_w@,
        flat_price(days.subrange(0, i + 1)) == flat_price(days.subrange(0, i)) + days[i].price@,
{
    let sub = days.subrange(0, i + 1);
    assert(sub.drop_last() =~= days.subrange(0, i));
    assert(sub.last() == days[i]);
}

/// A prefix of the day list never flattens to more hours than the whole.
pub proof fn lemma_flat_prefix_le(days: Seq<DayRecord>, i: int)
    requires
        0 <= i <= days.len(),
    ensures
        flat_net(days.subrange(0, i)).len() <= flat_net(days).len(),
    decreases days.len() - i,
{
    if i == days.len() {
        assert(days.subrange(0, days.len() as int) =~= days);
    } else {
        lemma_flat_unfold(days, i);
        lemma_flat_prefix_le(days, i + 1);
    }
}

/// Run the heuristic, self-consumption and DP-optimal strategies plus the
/// no-battery baseline on the flattened timeline, all starting at
/// `soc_min` with the same parameters.
///
/// Each returned trace and cost is pinned exactly to its strategy's spec
/// fold; additionally the optimizer's cost never exceeds the baseline, with
/// equal SoC percentages the optimizer holds `soc_min` and pays exactly the
/// baseline, and with ordered percentages every trace stays within
/// `[soc_min, soc_max]`.
pub fn simulate(days: &Vec<DayRecord>, params: &BatteryParams) -> (r: SimResult)
    requires
        valid_days(days@),
        valid_params(*params),
    ensures
        ({
            let net = flat_net(days@);
            let price = flat_price(days@);
            let t = net.len() as int;
            let bounds = spec_boundaries(days@);
            let smin = spec_soc_min(*params);
            let smax = spec_soc_max(*params);
            let power = params.max_power_w as int;
            let coeff = params.export_coeff as int;
            let inp = dp_input(net, price, power, smin, smax, coeff);
            &&& r.hours == net.len()
            &&& r.net_load_w@ == net
            &&& r.price@ == price
            &&& r.dates@.len() == days@.len()
            &&& forall|i: int| 0 <= i < days@.len() ==> #[trigger] r.dates@[i] == days@[i].date
            &&& r.no_battery_cost as int == spec_baseline_cost(net, price, coeff, t)
            &&& r.heuristic.soc@.len() == t
            &&& forall|k: int|
                0 <= k < t ==> #[trigger] r.heuristic.soc@[k] as int == heur_state(
                    net,
                    price,
                    bounds,
                    power,
                    smin,
                    smax,
                    coeff,
                    smin,
                    k + 1,
                ).0
            &&& r.heuristic.total_cost as int == heur_state(
                net,
                price,
                bounds,
                power,
                smin,
                smax,
                coeff,
                smin,
                t,
            ).1
            &&& r.self_consumption.soc@.len() == t
            &&& forall|k: int|
                0 <= k < t ==> #[trigger] r.self_consumption.soc@[k] as int == sc_state(
                    net,
                    price,
                    power,
                    smin,
                    smax,
                    coeff,
                    smin,
                    k + 1,
                ).0
            &&& r.self_consumption.total_cost as int == sc_state(
                net,
                price,
                power,
                smin,
                smax,
                coeff,
                smin,
                t,
            ).1
            &&& r.optimal.soc@.len() == t
            &&& (soc_range(inp) > 0 ==> forall|k: int|
                0 <= k < t ==> #[trigger] r.optimal.soc@[k] as int == bin_soc(
                    inp,
                    dp_trace_bin(inp, t, smin, k + 1),
                ))
            &&& r.optimal.total_cost as int == spec_optimal_cost(inp, t, smin)
            &&& r.optimal.total_cost <= r.no_battery_cost
            &&& (params.soc_min_pct == params.soc_max_pct ==> {
                &&& r.optimal.total_cost == r.no_battery_cost
                &&& forall|k: int| 0 <= k < t ==> #[trigger] r.optimal.soc@[k] as int == smin
            })
            &&& (params.soc_min_pct <= params.soc_max_pct ==> {
                &&& forall|k: int|
                    0 <= k < t ==> smin <= #[trigger] r.heuristic.soc@[k] as int <= smax
                &&& forall|k: int|
                    0 <= k < t ==> smin <= #[trigger] r.self_consumption.soc@[k] as int <= smax
                &&& forall|k: int|
                    0 <= k < t ==> smin <= #[trigger] r.optimal.soc@[k] as int <= smax
            })
        }),
{
    let ghost gdays = days@;
    let n_days = days.len();

    // Flatten the days into one contiguous timeline, recording where each
    // day starts.
    let mut all_net: Vec<i64> = Vec::new();
    let mut all_price: Vec<i64> = Vec::new();
    let mut dates: Vec<String> = Vec::new();
    let mut day_boundaries: Vec<usize> = Vec::new();
    let mut i: usize = 0;
    while i < n_days
        invariant
            gdays == days@,
            valid_days(gdays),
            gdays.len() == n_days,
            0 <= i <= n_days,
            all_net@ == flat_net(gdays.subrange(0, i as int)),
            all_price@ == flat_price(gdays.subrange(0, i as int)),
            all_net@.len() == all_price@.len(),
            all_net@.len() <= MAX_HOURS,
            bounded_series(all_net@, all_price@),
            dates@.len() == i,
            forall|j: int| 0 <= j < i ==> #[trigger] dates@[j] == gdays[j].date,
            day_boundaries@.len() == i,
            forall|j: int|
                0 <= j < i ==> #[trigger] day_boundaries@[j] as int == flat_net(
                    gdays.subrange(0, j),
                ).len(),
            forall|j: int| 0 <= j < i ==> #[trigger] day_boundaries@[j] <= all_net@.len(),
        decreases n_days - i,
    {
        proof {
            lemma_flat_prefix_le(gdays, i as int);
            lemma_flat_prefix_le(gdays, i as int + 1);
            lemma_flat_unfold(gdays, i as int);
        }
        day_boundaries.push(all_net.len());
        let day = &days[i];
        dates.push(day.date.clone());
        let m = day.net_load_w.len();
        assert(m == day.price@.len());
        let mut k: usize = 0;
        while k < m
            invariant
                gdays == days@,
                valid_days(gdays),
                0 <= i < gdays.len(),
                day == &gdays[i as int],
                m == day.net_load_w@.len() == day.price@.len(),
                0 <= k <= m,
                all_net@ == flat_net(gdays.subrange(0, i as int)) + day.net_load_w@.subrange(
                    0,
                    k as int,
                ),
                all_price@ == flat_price(gdays.subrange(0, i as int)) + day.price@.subrange(
                    0,
                    k as int,
                ),
                all_net@.len() == all_price@.len(),
                flat_net(gdays.subrange(0, i as int + 1)).len() <= MAX_HOURS,
                all_net@.len() <= flat_net(gdays.subrange(0, i as int + 1)).len(),
                bounded_series(all_net@, all_price@),
            decreases m - k,
        {
            all_net.push(day.net_load_w[k]);
            all_price.push(day.price[k]);
            proof {
                assert(all_net@ =~= flat_net(gdays.subrange(0, i as int))
                    + day.net_load_w@.subrange(0, k as int + 1));
                assert(all_price@ =~= flat_price(gdays.subrange(0, i as int))
                    + day.price@.subrange(0, k as int + 1));
                lemma_flat_unfold(gdays, i as int);
                assert(day.net_load_w@.subrange(0, m as int) =~= day.net_load_w@);
            }
            k = k + 1;
        }
        proof {
            assert(day.net_load_w@.subrange(0, m as int) =~= day.net_load_w@);
            assert(day.price@.subrange(0, m as int) =~= day.price@);
            assert(all_net@ == flat_net(gdays.subrange(0, i as int + 1)));
            assert(all_price@ == flat_price(gdays.subrange(0, i as int + 1)));
        }
        i = i + 1;
    }
    proof {
        assert(gdays.subrange(0, n_days as int) =~= gdays);
        assert(all_net@ == flat_net(gdays));
        assert(all_price@ == flat_price(gdays));
        assert(day_boundaries@ =~= spec_boundaries(gdays));
        assert(valid_boundaries(day_boundaries@, all_net@.len() as int)) by {
            if all_net@.len() > 0 {
                assert(gdays.len() > 0);
            }
            if day_boundaries@.len() > 0 {
                assert(gdays.subrange(0, 0) =~= Seq::<DayRecord>::empty());
                assert(day_boundaries@[0] as int == 0);
            }
            assert forall|a: int, b: int|
                0 <= a <= b < day_boundaries@.len() implies day_boundaries@[a] as int
                <= day_boundaries@[b] as int by {
                lemma_flat_prefix_le_gen(gdays, a, b);
            }
            assert forall|a: int| 0 <= a < day_boundaries@.len() implies day_boundaries@[a] as int
                <= all_net@.len() as int by {
                lemma_flat_prefix_le_gen(gdays, a, gdays.len() as int);
                assert(gdays.subrange(0, gdays.len() as int) =~= gdays);
            }
        }
    }

    // Convert percentage SoC bounds into absolute energies.
    proof {
        lemma_mul_abs_bound(
            params.capacity_wh as int,
            params.soc_min_pct as int,
            MAX_ENERGY as int,
            100,
        );
        lemma_mul_abs_bound(
            params.capacity_wh as int,
            params.soc_max_pct as int,
            MAX_ENERGY as int,
            100,
        );
    }
    let soc_min_wh: i64 = (((params.capacity_wh as u64) * (params.soc_min_pct as u64)) / 100)
        as i64;
    let soc_max_wh: i64 = (((params.capacity_wh as u64) * (params.soc_max_pct as u64)) / 100)
        as i64;
    proof {
        lemma_pct_of_capacity(params.capacity_wh as int, 0, params.soc_min_pct as int);
        lemma_pct_of_capacity(params.capacity_wh as int, 0, params.soc_max_pct as int);
        assert(soc_min_wh as int == spec_soc_min(*params));
        assert(soc_max_wh as int == spec_soc_max(*params));
        if params.soc_min_pct <= params.soc_max_pct {
            lemma_pct_of_capacity(
                params.capacity_wh as int,
                params.soc_min_pct as int,
                params.soc_max_pct as int,
            );
        }
    }
    let initial_soc = soc_min_wh;

    // Run all strategies on the same timeline.
    let heuristic = run_heuristic(
        &all_net,
        &all_price,
        params.max_power_w,
        soc_min_wh,
        soc_max_wh,
        params.export_coeff,
        initial_soc,
        &day_boundaries,
    );
    let self_consumption = run_self_consumption(
        &all_net,
        &all_price,
        params.max_power_w,
        soc_min_wh,
        soc_max_wh,
        params.export_coeff,
        initial_soc,
    );
    let optimal = run_optimal(
        &all_net,
        &all_price,
        params.max_power_w,
        soc_min_wh,
        soc_max_wh,
        params.export_coeff,
        initial_soc,
    );
    let no_batt = no_battery_cost(&all_net, &all_price, params.export_coeff);

    proof {
        let inp = dp_input(
            all_net@,
            all_price@,
            params.max_power_w as int,
            soc_min_wh as int,
            soc_max_wh as int,
            params.export_coeff as int,
        );
        lemma_optimal_le_baseline(inp, all_net@.len() as int, soc_min_wh as int);
        if soc_range(inp) <= 0 && soc_min_wh == soc_max_wh {
            assert forall|k: int| 0 <= k < all_net@.len() implies #[trigger] optimal.soc@[k]
                as int == soc_min_wh as int by {}
        }
    }

    let hours = all_net.len();
    SimResult {
        hours,
        dates,
        net_load_w: all_net,
        price: all_price,
        heuristic,
        self_consumption,
        optimal,
        no_battery_cost: no_batt,
    }
}

/// Prefix lengths of the flattened timeline are monotone.
pub proof fn lemma_flat_prefix_le_gen(days: Seq<DayRecord>, a: int, b: int)
    requires
        0 <= a <= b <= days.len(),
    ensures
        flat_net(days.subrange(0, a)).len() <= flat_net(days.subrange(0, b)).len(),
    decreases b - a,
{
    if a < b {
        lemma_flat_unfold(days, a);
        lemma_flat_prefix_le_gen(days, a + 1, b);
    }
}

} // verus!
