//! Dynamic-programming optimizer: discretize the usable SoC range into
//! `N_BINS` levels, run backward value iteration over bin-to-bin transitions
//! reachable within the hourly power limit, then trace the policy forward
//! into a concrete SoC path and total cost.
//!
//! Over the discretized state space the computed schedule is cost-minimal:
//! [`lemma_dp_value_optimal`] shows the value function is a lower bound on
//! the cost of every admissible bin path, and [`lemma_optimal_le_baseline`]
//! specializes that to the do-nothing path.

use vstd::prelude::*;
use vstd::arithmetic::div_mod::{lemma_div_by_multiple, lemma_div_is_ordered, lemma_div_pos_is_pos};
use crate::cost::{
    bounded_series, hour_cost, hour_cost_bound, lemma_hour_cost_bound, lemma_mul_abs_bound,
    no_battery_cost, spec_baseline_cost, spec_hour_cost, MAX_COEFF, MAX_ENERGY, MAX_HOURS,
};
use crate::strategy::StrategyResult;

verus! {

/// Number of uniform SoC bins spanning the usable range; bin indices run
/// from 0 to `N_BINS` inclusive.
pub const N_BINS: usize = 200;

/// The timeline and battery parameters the optimizer works on.
pub ghost struct DpInput {
    pub net: Seq<i64>,
    pub price: Seq<i64>,
    pub max_power: int,
    pub soc_min: int,
    pub soc_max: int,
    pub export_coeff: int,
}

pub open spec fn dp_input(
    net: Seq<i64>,
    price: Seq<i64>,
    max_power: int,
    soc_min: int,
    soc_max: int,
    export_coeff: int,
) -> DpInput {
    DpInput { net, price, max_power, soc_min, soc_max, export_coeff }
}

pub open spec fn soc_range(inp: DpInput) -> int {
    inp.soc_max - inp.soc_min
}

/// The optimizer's inputs obey the library's magnitude bounds.
pub open spec fn valid_dp_input(inp: DpInput) -> bool {
    &&& bounded_series(inp.net, inp.price)
    &&& 0 <= inp.max_power <= MAX_ENERGY
    &&& -MAX_ENERGY <= inp.soc_min <= MAX_ENERGY
    &&& -MAX_ENERGY <= inp.soc_max <= MAX_ENERGY
    &&& -MAX_COEFF <= inp.export_coeff <= MAX_COEFF
}

/// SoC level (Wh) of a bin.
pub open spec fn bin_soc(inp: DpInput, b: int) -> int {
    inp.soc_min + b * soc_range(inp) / (N_BINS as int)
}

/// Largest bin distance reachable in one hour: `max_power / bin_width`,
/// rounded up.
pub open spec fn bin_delta(inp: DpInput) -> int {
    (inp.max_power * (N_BINS as int) + soc_range(inp) - 1) / soc_range(inp)
}

/// Lowest destination bin the power limit admits from bin `s`.
pub open spec fn win_lo(inp: DpInput, s: int) -> int {
    if s >= bin_delta(inp) {
        s - bin_delta(inp)
    } else {
        0
    }
}

/// Highest destination bin the power limit admits from bin `s`.
pub open spec fn win_hi(inp: DpInput, s: int) -> int {
    if s + bin_delta(inp) <= N_BINS {
        s + bin_delta(inp)
    } else {
        N_BINS as int
    }
}

/// Cost of one hour when the battery moves from bin `s` to bin `s2`:
/// a positive SoC delta is a charge, a negative one a discharge.
pub open spec fn trans_cost(inp: DpInput, hour: int, s: int, s2: int) -> int {
    let delta = bin_soc(inp, s2) - bin_soc(inp, s);
    if delta >= 0 {
        spec_hour_cost(inp.net[hour] as int, delta, 0, inp.price[hour] as int, inp.export_coeff)
    } else {
        spec_hour_cost(inp.net[hour] as int, 0, -delta, inp.price[hour] as int, inp.export_coeff)
    }
}

/// Minimum cost of hours `hour..t` when the battery starts the hour in bin
/// `s`; zero past the horizon.
pub open spec fn dp_value(inp: DpInput, t: int, hour: int, s: int) -> int
    decreases t - hour, 2 + N_BINS - win_lo(inp, s), 1int,
{
    if hour >= t {
        0
    } else {
        dp_search(inp, t, hour, s, win_lo(inp, s)).0
    }
}

/// `(minimum cost, first minimizing destination)` over destinations
/// `s2..=win_hi(inp, s)` for the hour starting in bin `s`.
pub open spec fn dp_search(inp: DpInput, t: int, hour: int, s: int, s2: int) -> (int, int)
    decreases t - hour, 2 + N_BINS - s2, 0int,
{
    if hour >= t {
        (0, s2)
    } else {
        let c = trans_cost(inp, hour, s, s2) + dp_value(inp, t, hour + 1, s2);
        if s2 >= win_hi(inp, s) {
            (c, s2)
        } else {
            let rest = dp_search(inp, t, hour, s, s2 + 1);
            if c <= rest.0 {
                (c, s2)
            } else {
                rest
            }
        }
    }
}

/// The destination bin the policy picks for `(hour, s)`.
pub open spec fn dp_choice(inp: DpInput, t: int, hour: int, s: int) -> int {
    dp_search(inp, t, hour, s, win_lo(inp, s)).1
}

/// The bin nearest the initial SoC, clamped to the bin range.
pub open spec fn start_bin(inp: DpInput, initial_soc: int) -> int {
    if initial_soc <= inp.soc_min {
        0
    } else {
        let q = ((initial_soc - inp.soc_min) * (2 * N_BINS as int) + soc_range(inp)) / (2
            * soc_range(inp));
        if q > N_BINS as int {
            N_BINS as int
        } else {
            q
        }
    }
}

/// The bin the forward trace occupies after `k` hours.
pub open spec fn dp_trace_bin(inp: DpInput, t: int, initial_soc: int, k: int) -> int
    decreases k,
{
    if k <= 0 {
        start_bin(inp, initial_soc)
    } else {
        dp_choice(inp, t, k - 1, dp_trace_bin(inp, t, initial_soc, k - 1))
    }
}

/// Accumulated cost of the forward trace over the first `k` hours.
pub open spec fn dp_trace_cost(inp: DpInput, t: int, initial_soc: int, k: int) -> int
    decreases k,
{
    if k <= 0 {
        0
    } else {
        dp_trace_cost(inp, t, initial_soc, k - 1) + trans_cost(
            inp,
            k - 1,
            dp_trace_bin(inp, t, initial_soc, k - 1),
            dp_trace_bin(inp, t, initial_soc, k),
        )
    }
}

/// The optimizer's total cost, including the degenerate no-capacity case,
/// where it holds the SoC at `soc_min` and pays the baseline.
pub open spec fn spec_optimal_cost(inp: DpInput, t: int, initial_soc: int) -> int {
    if soc_range(inp) <= 0 {
        spec_baseline_cost(inp.net, inp.price, inp.export_coeff, t)
    } else {
        dp_trace_cost(inp, t, initial_soc, t)
    }
}

/// Bin SoC levels are monotone in the bin index and span exactly
/// `[soc_min, soc_max]`.
pub proof fn lemma_bin_soc_range(inp: DpInput, b: int)
    requires
        soc_range(inp) > 0,
        0 <= b <= N_BINS,
    ensures
        inp.soc_min <= bin_soc(inp, b) <= inp.soc_max,
        b == 0 ==> bin_soc(inp, b) == inp.soc_min,
        b == N_BINS ==> bin_soc(inp, b) == inp.soc_max,
{
    let r = soc_range(inp);
    assert(0 <= b * r) by (nonlinear_arith)
        requires 0 <= b && 0 < r;
    assert(b * r <= (N_BINS as int) * r) by (nonlinear_arith)
        requires b <= N_BINS as int && 0 < r;
    lemma_div_is_ordered(0, b * r, N_BINS as int);
    lemma_div_is_ordered(b * r, (N_BINS as int) * r, N_BINS as int);
    lemma_div_by_multiple(r, N_BINS as int);
    assert((N_BINS as int) * r == r * (N_BINS as int));
    if b == 0 {
        assert(0 * r == 0) by (nonlinear_arith);
    }
}

/// The window always admits holding the current bin.
pub proof fn lemma_window_contains_self(inp: DpInput, s: int)
    requires
        soc_range(inp) > 0,
        0 <= inp.max_power,
        0 <= s <= N_BINS,
    ensures
        0 <= win_lo(inp, s) <= s <= win_hi(inp, s) <= N_BINS,
{
    let r = soc_range(inp);
    assert(0 <= inp.max_power * (N_BINS as int)) by (nonlinear_arith)
        requires 0 <= inp.max_power;
    lemma_div_pos_is_pos(inp.max_power * (N_BINS as int) + r - 1, r);
}

/// One transition's cost obeys the hourly cost bound.
pub proof fn lemma_trans_cost_bound(inp: DpInput, hour: int, s: int, s2: int)
    requires
        valid_dp_input(inp),
        soc_range(inp) > 0,
        0 <= hour < inp.net.len(),
        0 <= s <= N_BINS,
        0 <= s2 <= N_BINS,
    ensures
        -hour_cost_bound() <= trans_cost(inp, hour, s, s2) <= hour_cost_bound(),
{
    lemma_bin_soc_range(inp, s);
    lemma_bin_soc_range(inp, s2);
    let delta = bin_soc(inp, s2) - bin_soc(inp, s);
    if delta >= 0 {
        lemma_hour_cost_bound(
            inp.net[hour] as int,
            delta,
            0,
            inp.price[hour] as int,
            inp.export_coeff,
        );
    } else {
        lemma_hour_cost_bound(
            inp.net[hour] as int,
            0,
            -delta,
            inp.price[hour] as int,
            inp.export_coeff,
        );
    }
}

/// Structure of [`dp_search`]: it returns the minimum candidate cost over
/// the remaining window together with the first destination attaining it.
pub proof fn lemma_dp_search_props(inp: DpInput, t: int, hour: int, s: int, s2: int)
    requires
        0 <= hour < t,
        win_lo(inp, s) <= s2 <= win_hi(inp, s),
    ensures
        ({
            let r = dp_search(inp, t, hour, s, s2);
            &&& s2 <= r.1 <= win_hi(inp, s)
            &&& r.0 == trans_cost(inp, hour, s, r.1) + dp_value(inp, t, hour + 1, r.1)
            &&& forall|j: int|
                #![trigger trans_cost(inp, hour, s, j)]
                s2 <= j <= win_hi(inp, s) ==> r.0 <= trans_cost(inp, hour, s, j) + dp_value(
                    inp,
                    t,
                    hour + 1,
                    j,
                )
            &&& forall|j: int|
                #![trigger trans_cost(inp, hour, s, j)]
                s2 <= j < r.1 ==> r.0 < trans_cost(inp, hour, s, j) + dp_value(inp, t, hour + 1, j)
        }),
    decreases win_hi(inp, s) - s2,
{
    if s2 < win_hi(inp, s) {
        lemma_dp_search_props(inp, t, hour, s, s2 + 1);
    }
}

/// The value function is bounded by the horizon times the hourly bound.
pub proof fn lemma_dp_value_bound(inp: DpInput, t: int, hour: int, s: int)
    requires
        valid_dp_input(inp),
        soc_range(inp) > 0,
        0 <= hour <= t <= inp.net.len(),
        0 <= s <= N_BINS,
    ensures
        -(t - hour) * hour_cost_bound() <= dp_value(inp, t, hour, s) <= (t - hour)
            * hour_cost_bound(),
    decreases t - hour,
{
    if hour < t {
        lemma_window_contains_self(inp, s);
        lemma_dp_search_props(inp, t, hour, s, win_lo(inp, s));
        let ch = dp_search(inp, t, hour, s, win_lo(inp, s)).1;
        lemma_trans_cost_bound(inp, hour, s, ch);
        lemma_dp_value_bound(inp, t, hour + 1, ch);
        assert((t - hour) * hour_cost_bound() == (t - hour - 1) * hour_cost_bound()
            + hour_cost_bound()) by (nonlinear_arith);
    } else {
        assert((t - hour) * hour_cost_bound() == 0) by (nonlinear_arith)
            requires t == hour;
    }
}

/// The forward trace stays inside the bin range.
pub proof fn lemma_dp_trace_bin_range(inp: DpInput, t: int, initial_soc: int, k: int)
    requires
        valid_dp_input(inp),
        soc_range(inp) > 0,
        0 <= k <= t,
    ensures
        0 <= dp_trace_bin(inp, t, initial_soc, k) <= N_BINS,
    decreases k,
{
    if k == 0 {
        if initial_soc > inp.soc_min {
            let num = (initial_soc - inp.soc_min) * (2 * N_BINS as int) + soc_range(inp);
            assert(0 <= (initial_soc - inp.soc_min) * (2 * N_BINS as int)) by (nonlinear_arith)
                requires initial_soc - inp.soc_min >= 0;
            lemma_div_pos_is_pos(num, 2 * soc_range(inp));
        }
    } else {
        lemma_dp_trace_bin_range(inp, t, initial_soc, k - 1);
        let prev = dp_trace_bin(inp, t, initial_soc, k - 1);
        lemma_window_contains_self(inp, prev);
        lemma_dp_search_props(inp, t, k - 1, prev, win_lo(inp, prev));
    }
}

/// The traced cost is bounded by the horizon times the hourly bound.
pub proof fn lemma_dp_trace_cost_bound(inp: DpInput, t: int, initial_soc: int, k: int)
    requires
        valid_dp_input(inp),
        soc_range(inp) > 0,
        0 <= k <= t <= inp.net.len(),
    ensures
        -k * hour_cost_bound() <= dp_trace_cost(inp, t, initial_soc, k) <= k * hour_cost_bound(),
    decreases k,
{
    if k > 0 {
        lemma_dp_trace_cost_bound(inp, t, initial_soc, k - 1);
        lemma_dp_trace_bin_range(inp, t, initial_soc, k - 1);
        lemma_dp_trace_bin_range(inp, t, initial_soc, k);
        lemma_trans_cost_bound(
            inp,
            k - 1,
            dp_trace_bin(inp, t, initial_soc, k - 1),
            dp_trace_bin(inp, t, initial_soc, k),
        );
        assert(k * hour_cost_bound() == (k - 1) * hour_cost_bound() + hour_cost_bound())
            by (nonlinear_arith);
    }
}

/// The forward trace spends exactly the value function: after `k` hours the
/// cost paid so far plus the value of the remaining horizon equals the value
/// at the start.
pub proof fn lemma_dp_trace_value(inp: DpInput, t: int, initial_soc: int, k: int)
    requires
        valid_dp_input(inp),
        soc_range(inp) > 0,
        0 <= k <= t <= inp.net.len(),
    ensures
        dp_trace_cost(inp, t, initial_soc, k) + dp_value(
            inp,
            t,
            k,
            dp_trace_bin(inp, t, initial_soc, k),
        ) == dp_value(inp, t, 0, start_bin(inp, initial_soc)),
    decreases k,
{
    if k > 0 {
        lemma_dp_trace_value(inp, t, initial_soc, k - 1);
        let prev = dp_trace_bin(inp, t, initial_soc, k - 1);
        lemma_dp_trace_bin_range(inp, t, initial_soc, k - 1);
        lemma_window_contains_self(inp, prev);
        lemma_dp_search_props(inp, t, k - 1, prev, win_lo(inp, prev));
    }
}

/// Holding the current bin for the whole horizon costs exactly the baseline
/// of the remaining hours, so the value function never exceeds it.
pub proof fn lemma_dp_value_le_hold(inp: DpInput, t: int, hour: int, s: int)
    requires
        valid_dp_input(inp),
        soc_range(inp) > 0,
        0 <= hour <= t <= inp.net.len(),
        0 <= s <= N_BINS,
    ensures
        dp_value(inp, t, hour, s) <= spec_baseline_cost(inp.net, inp.price, inp.export_coeff, t)
            - spec_baseline_cost(inp.net, inp.price, inp.export_coeff, hour),
    decreases t - hour,
{
    if hour < t {
        lemma_window_contains_self(inp, s);
        lemma_dp_search_props(inp, t, hour, s, win_lo(inp, s));
        assert(trans_cost(inp, hour, s, s) == spec_hour_cost(
            inp.net[hour] as int,
            0,
            0,
            inp.price[hour] as int,
            inp.export_coeff,
        ));
        lemma_dp_value_le_hold(inp, t, hour + 1, s);
        assert(spec_baseline_cost(inp.net, inp.price, inp.export_coeff, hour + 1)
            == spec_baseline_cost(inp.net, inp.price, inp.export_coeff, hour) + spec_hour_cost(
            inp.net[hour] as int,
            0,
            0,
            inp.price[hour] as int,
            inp.export_coeff,
        ));
    }
}

/// A bin path is admissible when every step stays inside the power window.
pub open spec fn valid_path(inp: DpInput, path: Seq<int>) -> bool {
    &&& forall|i: int| 0 <= i < path.len() ==> 0 <= #[trigger] path[i] <= N_BINS
    &&& forall|i: int|
        0 <= i < path.len() - 1 ==> win_lo(inp, #[trigger] path[i]) <= path[i + 1] <= win_hi(
            inp,
            path[i],
        )
}

/// Cost of following a bin path from a given hour onward.
pub open spec fn path_cost(inp: DpInput, hour: int, path: Seq<int>) -> int
    decreases path.len(),
{
    if path.len() <= 1 {
        0
    } else {
        trans_cost(inp, hour, path[0], path[1]) + path_cost(inp, hour + 1, path.drop_first())
    }
}

/// Optimality of the value function over the discretized state space: no
/// admissible bin path over the remaining horizon costs less.
pub proof fn lemma_dp_value_optimal(inp: DpInput, t: int, hour: int, path: Seq<int>)
    requires
        0 <= hour <= t,
        path.len() == t - hour + 1,
        valid_path(inp, path),
    ensures
        dp_value(inp, t, hour, path[0]) <= path_cost(inp, hour, path),
    decreases path.len(),
{
    if path.len() > 1 {
        lemma_dp_search_props(inp, t, hour, path[0], win_lo(inp, path[0]));
        let rest = path.drop_first();
        assert(rest[0] == path[1]);
        assert forall|i: int| 0 <= i < rest.len() - 1 implies win_lo(inp, #[trigger] rest[i])
            <= rest[i + 1] <= win_hi(inp, rest[i]) by {
            assert(rest[i] == path[i + 1]);
            assert(rest[i + 1] == path[i + 2]);
        }
        lemma_dp_value_optimal(inp, t, hour + 1, rest);
    }
}

/// The optimizer's total cost never exceeds the no-battery baseline: the
/// search space always contains the do-nothing schedule.
pub proof fn lemma_optimal_le_baseline(inp: DpInput, t: int, initial_soc: int)
    requires
        valid_dp_input(inp),
        0 <= t <= inp.net.len(),
    ensures
        spec_optimal_cost(inp, t, initial_soc) <= spec_baseline_cost(
            inp.net,
            inp.price,
            inp.export_coeff,
            t,
        ),
{
    if soc_range(inp) > 0 {
        lemma_dp_trace_value(inp, t, initial_soc, t);
        lemma_dp_trace_bin_range(inp, t, initial_soc, 0);
        lemma_dp_value_le_hold(inp, t, 0, start_bin(inp, initial_soc));
    }
}

/// SoC level (Wh) of a bin, computed exactly as [`bin_soc`].
fn bin_soc_wh(soc_min_wh: i64, soc_max_wh: i64, b: usize, Ghost(inp): Ghost<DpInput>) -> (w: i64)
    requires
        inp.soc_min == soc_min_wh as int,
        inp.soc_max == soc_max_wh as int,
        -MAX_ENERGY <= soc_min_wh <= MAX_ENERGY,
        -MAX_ENERGY <= soc_max_wh <= MAX_ENERGY,
        soc_range(inp) > 0,
        b <= N_BINS,
    ensures
        w as int == bin_soc(inp, b as int),
        soc_min_wh <= w <= soc_max_wh,
{
    proof {
        lemma_bin_soc_range(inp, b as int);
        lemma_mul_abs_bound(b as int, soc_range(inp), N_BINS as int, 2 * MAX_ENERGY as int);
    }
    let range = soc_max_wh - soc_min_wh;
    let q = (b as u64) * (range as u64) / (N_BINS as u64);
    soc_min_wh + (q as i64)
}

/// One candidate of the backward sweep: the cost of moving from bin `s` to
/// bin `s2` this hour plus the value of the remaining horizon from `s2`.
fn dp_candidate(
    net_h: i64,
    price_h: i64,
    export_coeff: i64,
    soc_min_wh: i64,
    soc_max_wh: i64,
    s_soc: i64,
    s2: usize,
    dp_next: &Vec<i128>,
    Ghost(inp): Ghost<DpInput>,
    Ghost(gt): Ghost<int>,
    Ghost(h): Ghost<int>,
    Ghost(s): Ghost<int>,
) -> (c: i128)
    requires
        valid_dp_input(inp),
        soc_range(inp) > 0,
        inp.soc_min == soc_min_wh as int,
        inp.soc_max == soc_max_wh as int,
        inp.export_coeff == export_coeff as int,
        0 <= h < gt <= inp.net.len() <= MAX_HOURS,
        inp.net[h] == net_h,
        inp.price[h] == price_h,
        0 <= s <= N_BINS,
        s_soc as int == bin_soc(inp, s),
        s2 <= N_BINS,
        dp_next@.len() == N_BINS + 1,
        dp_next@[s2 as int] as int == dp_value(inp, gt, h + 1, s2 as int),
    ensures
        c as int == trans_cost(inp, h, s, s2 as int) + dp_value(inp, gt, h + 1, s2 as int),
        -(gt - h) * hour_cost_bound() <= c as int <= (gt - h) * hour_cost_bound(),
{
    proof {
        lemma_bin_soc_range(inp, s as int);
        lemma_bin_soc_range(inp, s2 as int);
        lemma_dp_value_bound(inp, gt, h + 1, s2 as int);
        lemma_trans_cost_bound(inp, h, s, s2 as int);
        let bnd = hour_cost_bound();
        assert((gt - h) * bnd == (gt - h - 1) * bnd + bnd) by (nonlinear_arith);
        assert((gt - h) * bnd <= MAX_HOURS as int * bnd) by (nonlinear_arith)
            requires 0 <= gt - h <= MAX_HOURS as int && 0 <= bnd;
        assert(-(MAX_HOURS as int) * bnd <= -(gt - h) * bnd) by (nonlinear_arith)
            requires 0 <= gt - h <= MAX_HOURS as int && 0 <= bnd;
    }
    let s2_soc = bin_soc_wh(soc_min_wh, soc_max_wh, s2, Ghost(inp));
    let d = s2_soc - s_soc;
    let charge: i64;
    let discharge: i64;
    if d >= 0 {
        charge = d;
        discharge = 0;
    } else {
        charge = 0;
        discharge = -d;
    }
    let hc = hour_cost(net_h, charge, discharge, price_h, export_coeff);
    hc + dp_next[s2]
}

/// Compute the minimum-cost schedule over the discretized SoC space by
/// backward value iteration and a forward policy trace. With no usable
/// capacity (`soc_max <= soc_min`) the battery never acts: the SoC is held
/// at `soc_min` and the cost is the no-battery baseline.
pub fn run_optimal(
    net_load: &Vec<i64>,
    price: &Vec<i64>,
    max_power: i64,
    soc_min_wh: i64,
    soc_max_wh: i64,
    export_coeff: i64,
    initial_soc_wh: i64,
) -> (r: StrategyResult)
    requires
        bounded_series(net_load@, price@),
        net_load@.len() <= MAX_HOURS,
        0 <= max_power <= MAX_ENERGY,
        -MAX_ENERGY <= soc_min_wh <= MAX_ENERGY,
        -MAX_ENERGY <= soc_max_wh <= MAX_ENERGY,
        -MAX_COEFF <= export_coeff <= MAX_COEFF,
        -MAX_ENERGY <= initial_soc_wh <= MAX_ENERGY,
    ensures
        ({
            let inp = dp_input(
                net_load@,
                price@,
                max_power as int,
                soc_min_wh as int,
                soc_max_wh as int,
                export_coeff as int,
            );
            let t = net_load@.len() as int;
            &&& r.soc@.len() == t
            &&& r.total_cost as int == spec_optimal_cost(inp, t, initial_soc_wh as int)
            &&& (soc_range(inp) <= 0 ==> forall|k: int|
                0 <= k < t ==> #[trigger] r.soc@[k] == soc_min_wh)
            &&& (soc_range(inp) > 0 ==> forall|k: int|
                0 <= k < t ==> #[trigger] r.soc@[k] as int == bin_soc(
                    inp,
                    dp_trace_bin(inp, t, initial_soc_wh as int, k + 1),
                ))
            &&& (soc_min_wh <= soc_max_wh ==> forall|k: int|
                0 <= k < t ==> soc_min_wh <= #[trigger] r.soc@[k] <= soc_max_wh)
        }),
{
    let ghost inp = dp_input(
        net_load@,
        price@,
        max_power as int,
        soc_min_wh as int,
        soc_max_wh as int,
        export_coeff as int,
    );
    let t = net_load.len();
    let ghost gt = t as int;
    let ghost init = initial_soc_wh as int;

    if t == 0 {
        return StrategyResult { soc: Vec::new(), total_cost: 0 };
    }
    if soc_max_wh <= soc_min_wh {
        // Degenerate capacity: hold soc_min, pay the baseline.
        let mut socv: Vec<i64> = Vec::new();
        let mut i: usize = 0;
        while i < t
            invariant
                0 <= i <= t,
                socv@.len() == i,
                forall|k: int| 0 <= k < i ==> #[trigger] socv@[k] == soc_min_wh,
            decreases t - i,
        {
            socv.push(soc_min_wh);
            i = i + 1;
        }
        let total = no_battery_cost(net_load, price, export_coeff);
        return StrategyResult { soc: socv, total_cost: total };
    }

    let range = soc_max_wh - soc_min_wh;

    // Window width in bins: ceil(max_power / bin_width), clamped to the whole
    // bin range (a wider window never reaches further than all bins).
    proof {
        assert(1 <= range as int <= 2 * MAX_ENERGY as int);
        assert(0 <= max_power as int <= MAX_ENERGY as int);
        lemma_mul_abs_bound(max_power as int, N_BINS as int, MAX_ENERGY as int, N_BINS as int);
    }
    let pow_scaled: u64 = (max_power as u64) * (N_BINS as u64);
    let delta_bins: u64 = (pow_scaled + (range as u64) - 1) / (range as u64);
    let d_eff: usize = if delta_bins > (N_BINS as u64) {
        N_BINS
    } else {
        delta_bins as usize
    };
    proof {
        assert(delta_bins as int == bin_delta(inp));
        lemma_div_pos_is_pos(
            inp.max_power * (N_BINS as int) + soc_range(inp) - 1,
            soc_range(inp),
        );
    }

    // Value table for the hour after the current one; zero past the horizon.
    let mut dp_next: Vec<i128> = Vec::new();
    let mut dp_curr: Vec<i128> = Vec::new();
    let mut i: usize = 0;
    while i <= N_BINS
        invariant
            0 <= i <= N_BINS + 1,
            dp_next@.len() == i,
            dp_curr@.len() == i,
            forall|k: int| 0 <= k < i ==> #[trigger] dp_next@[k] == 0,
        decreases N_BINS + 1 - i,
    {
        dp_next.push(0);
        dp_curr.push(0);
        i = i + 1;
    }

    // Policy rows, pushed while sweeping hours backward: row `ri` holds the
    // choices of hour `t - 1 - ri`.
    let mut policy: Vec<Vec<u16>> = Vec::new();
    let mut hour: usize = t;
    while hour > 0
        invariant
            valid_dp_input(inp),
            soc_range(inp) > 0,
            inp == dp_input(
                net_load@,
                price@,
                max_power as int,
                soc_min_wh as int,
                soc_max_wh as int,
                export_coeff as int,
            ),
            net_load@.len() == t == gt,
            t <= MAX_HOURS,
            0 <= hour <= t,
            d_eff as int == (if bin_delta(inp) > N_BINS as int {
                N_BINS as int
            } else {
                bin_delta(inp)
            }),
            dp_next@.len() == N_BINS + 1,
            dp_curr@.len() == N_BINS + 1,
            forall|k: int|
                0 <= k <= N_BINS ==> #[trigger] dp_next@[k] as int == dp_value(
                    inp,
                    gt,
                    hour as int,
                    k,
                ),
            policy@.len() == gt - hour,
            forall|ri: int| 0 <= ri < policy@.len() ==> #[trigger] policy@[ri]@.len() == N_BINS + 1,
            forall|ri: int, k: int|
                0 <= ri < policy@.len() && 0 <= k <= N_BINS ==> #[trigger] policy@[ri]@[k] as int
                    == dp_choice(inp, gt, gt - 1 - ri, k),
        decreases hour,
    {
        let h = hour - 1;
        let nl = net_load[h];
        let p = price[h];
        let mut row: Vec<u16> = Vec::new();
        let mut s: usize = 0;
        while s <= N_BINS
            invariant
                valid_dp_input(inp),
                soc_range(inp) > 0,
                inp == dp_input(
                    net_load@,
                    price@,
                    max_power as int,
                    soc_min_wh as int,
                    soc_max_wh as int,
                    export_coeff as int,
                ),
                net_load@.len() == t == gt,
                t <= MAX_HOURS,
                0 <= h < t,
                hour == h + 1,
                nl == net_load@[h as int],
                p == price@[h as int],
                d_eff as int == (if bin_delta(inp) > N_BINS as int {
                    N_BINS as int
                } else {
                    bin_delta(inp)
                }),
                dp_next@.len() == N_BINS + 1,
                dp_curr@.len() == N_BINS + 1,
                forall|k: int|
                    0 <= k <= N_BINS ==> #[trigger] dp_next@[k] as int == dp_value(
                        inp,
                        gt,
                        hour as int,
                        k,
                    ),
                0 <= s <= N_BINS + 1,
                row@.len() == s,
                forall|k: int|
                    0 <= k < s ==> #[trigger] row@[k] as int == dp_choice(inp, gt, h as int, k),
                forall|k: int|
                    0 <= k < s ==> #[trigger] dp_curr@[k] as int == dp_value(inp, gt, h as int, k),
            decreases N_BINS + 1 - s,
        {
            proof {
                lemma_window_contains_self(inp, s as int);
            }
            let s_soc = bin_soc_wh(soc_min_wh, soc_max_wh, s, Ghost(inp));
            let lo: usize = if s >= d_eff {
                s - d_eff
            } else {
                0
            };
            let hi: usize = if s + d_eff <= N_BINS {
                s + d_eff
            } else {
                N_BINS
            };
            proof {
                assert(lo as int == win_lo(inp, s as int));
                assert(hi as int == win_hi(inp, s as int));
            }
            let mut best = dp_candidate(
                nl,
                p,
                export_coeff,
                soc_min_wh,
                soc_max_wh,
                s_soc,
                lo,
                &dp_next,
                Ghost(inp),
                Ghost(gt),
                Ghost(h as int),
                Ghost(s as int),
            );
            let mut best_next: usize = lo;
            let mut s2: usize = lo + 1;
            while s2 <= hi
                invariant
                    valid_dp_input(inp),
                    soc_range(inp) > 0,
                    inp == dp_input(
                        net_load@,
                        price@,
                        max_power as int,
                        soc_min_wh as int,
                        soc_max_wh as int,
                        export_coeff as int,
                    ),
                    net_load@.len() == t == gt,
                    t <= MAX_HOURS,
                    0 <= h < t,
                    hour == h + 1,
                    nl == net_load@[h as int],
                    p == price@[h as int],
                    0 <= s <= N_BINS,
                    s_soc as int == bin_soc(inp, s as int),
                    lo as int == win_lo(inp, s as int),
                    hi as int == win_hi(inp, s as int),
                    lo <= hi <= N_BINS,
                    dp_next@.len() == N_BINS + 1,
                    forall|k: int|
                        0 <= k <= N_BINS ==> #[trigger] dp_next@[k] as int == dp_value(
                            inp,
                            gt,
                            hour as int,
                            k,
                        ),
                    lo + 1 <= s2 <= hi + 1,
                    lo <= best_next < s2,
                    best as int == trans_cost(inp, h as int, s as int, best_next as int)
                        + dp_value(inp, gt, h as int + 1, best_next as int),
                    forall|j: int|
                        #![trigger trans_cost(inp, h as int, s as int, j)]
                        lo <= j < s2 ==> best as int <= trans_cost(inp, h as int, s as int, j)
                            + dp_value(inp, gt, h as int + 1, j),
                    forall|j: int|
                        #![trigger trans_cost(inp, h as int, s as int, j)]
                        lo <= j < best_next ==> (best as int) < trans_cost(inp, h as int, s as int, j)
                            + dp_value(inp, gt, h as int + 1, j),
                decreases hi + 1 - s2,
            {
                let c = dp_candidate(
                    nl,
                    p,
                    export_coeff,
                    soc_min_wh,
                    soc_max_wh,
                    s_soc,
                    s2,
                    &dp_next,
                    Ghost(inp),
                    Ghost(gt),
                    Ghost(h as int),
                    Ghost(s as int),
                );
                if c < best {
                    best = c;
                    best_next = s2;
                }
                s2 = s2 + 1;
            }
            proof {
                lemma_dp_search_props(inp, gt, h as int, s as int, lo as int);
                let sr = dp_search(inp, gt, h as int, s as int, lo as int);
                assert(best as int <= sr.0) by {
                    assert(best as int <= trans_cost(inp, h as int, s as int, sr.1) + dp_value(
                        inp,
                        gt,
                        h as int + 1,
                        sr.1,
                    ));
                }
                assert(sr.0 <= best as int) by {
                    assert(sr.0 <= trans_cost(inp, h as int, s as int, best_next as int)
                        + dp_value(inp, gt, h as int + 1, best_next as int));
                }
                assert(best_next as int == sr.1) by {
                    if (best_next as int) < sr.1 {
                        assert(sr.0 < trans_cost(inp, h as int, s as int, best_next as int)
                            + dp_value(inp, gt, h as int + 1, best_next as int));
                    }
                    if sr.1 < best_next as int {
                        assert((best as int) < trans_cost(inp, h as int, s as int, sr.1) + dp_value(
                            inp,
                            gt,
                            h as int + 1,
                            sr.1,
                        ));
                    }
                }
                assert(best as int == dp_value(inp, gt, h as int, s as int));
                assert(best_next as int == dp_choice(inp, gt, h as int, s as int));
            }
            dp_curr.set(s, best);
            row.push(best_next as u16);
            s = s + 1;
        }
        policy.push(row);
        core::mem::swap(&mut dp_curr, &mut dp_next);
        hour = h;
        proof {
            assert(policy@.len() == gt - hour);
            assert(policy@[gt - hour - 1]@.len() == N_BINS + 1);
        }
    }

    // Forward trace: follow the policy from the bin nearest the initial SoC.
    let mut current_bin: usize = if initial_soc_wh <= soc_min_wh {
        0
    } else {
        proof {
            assert(1 <= (initial_soc_wh - soc_min_wh) as int <= 2 * MAX_ENERGY as int);
            lemma_mul_abs_bound(
                (initial_soc_wh - soc_min_wh) as int,
                2 * N_BINS as int,
                2 * MAX_ENERGY as int,
                2 * N_BINS as int,
            );
        }
        let off_scaled: u64 = ((initial_soc_wh - soc_min_wh) as u64) * (2 * (N_BINS as u64));
        let num = off_scaled + (range as u64);
        let q = num / (2 * (range as u64));
        if q > N_BINS as u64 {
            N_BINS
        } else {
            q as usize
        }
    };
    proof {
        assert(current_bin as int == start_bin(inp, init));
        lemma_dp_trace_bin_range(inp, gt, init, 0);
    }
    let mut socv: Vec<i64> = Vec::new();
    let mut total: i128 = 0;
    let mut h: usize = 0;
    while h < t
        invariant
            valid_dp_input(inp),
            soc_range(inp) > 0,
            inp == dp_input(
                net_load@,
                price@,
                max_power as int,
                soc_min_wh as int,
                soc_max_wh as int,
                export_coeff as int,
            ),
            net_load@.len() == t == gt,
            t <= MAX_HOURS,
            init == initial_soc_wh as int,
            0 <= h <= t,
            policy@.len() == t,
            forall|ri: int| 0 <= ri < policy@.len() ==> #[trigger] policy@[ri]@.len() == N_BINS + 1,
            forall|ri: int, k: int|
                0 <= ri < policy@.len() && 0 <= k <= N_BINS ==> #[trigger] policy@[ri]@[k] as int
                    == dp_choice(inp, gt, gt - 1 - ri, k),
            current_bin <= N_BINS,
            current_bin as int == dp_trace_bin(inp, gt, init, h as int),
            socv@.len() == h,
            forall|k: int|
                0 <= k < h ==> #[trigger] socv@[k] as int == bin_soc(
                    inp,
                    dp_trace_bin(inp, gt, init, k + 1),
                ),
            forall|k: int| 0 <= k < h ==> soc_min_wh <= #[trigger] socv@[k] <= soc_max_wh,
            total as int == dp_trace_cost(inp, gt, init, h as int),
            -(h as int) * hour_cost_bound() <= total as int <= (h as int) * hour_cost_bound(),
        decreases t - h,
    {
        proof {
            lemma_window_contains_self(inp, current_bin as int);
            lemma_dp_search_props(inp, gt, h as int, current_bin as int, win_lo(
                inp,
                current_bin as int,
            ));
            lemma_dp_trace_bin_range(inp, gt, init, h as int + 1);
        }
        let row_idx = t - 1 - h;
        let nb = policy[row_idx][current_bin] as usize;
        proof {
            assert(nb as int == dp_choice(inp, gt, h as int, current_bin as int));
            assert(nb as int == dp_trace_bin(inp, gt, init, h as int + 1));
        }
        let s_soc = bin_soc_wh(soc_min_wh, soc_max_wh, current_bin, Ghost(inp));
        let s2_soc = bin_soc_wh(soc_min_wh, soc_max_wh, nb, Ghost(inp));
        let d = s2_soc - s_soc;
        let charge: i64;
        let discharge: i64;
        if d >= 0 {
            charge = d;
            discharge = 0;
        } else {
            charge = 0;
            discharge = -d;
        }
        let hc = hour_cost(net_load[h], charge, discharge, price[h], export_coeff);
        proof {
            lemma_dp_trace_cost_bound(inp, gt, init, h as int + 1);
            assert(hc as int == trans_cost(inp, h as int, current_bin as int, nb as int));
        }
        total = total + hc;
        socv.push(s2_soc);
        current_bin = nb;
        h = h + 1;
    }
    StrategyResult { soc: socv, total_cost: total }
}

} // verus!
