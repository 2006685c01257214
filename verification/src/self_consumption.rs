//! Self-consumption strategy: store surplus on-site generation, discharge to
//! offset import, never import from the grid to charge.

use vstd::prelude::*;
use crate::cost::{
    bounded_series, hour_cost, hour_cost_bound, lemma_hour_cost_bound, spec_hour_cost, MAX_COEFF,
    MAX_ENERGY, MAX_HOURS,
};
use crate::strategy::{spec_max, spec_min, StrategyResult};

verus! {

/// The `(charge, discharge)` the self-consumption rule picks for one hour:
/// surplus hours charge from the surplus, deficit hours discharge into the
/// deficit, both capped by the power limit and the usable SoC range.
pub open spec fn sc_action(net: int, soc: int, max_power: int, soc_min: int, soc_max: int) -> (
    int,
    int,
) {
    if net < 0 {
        (spec_max(spec_min(spec_min(-net, max_power), soc_max - soc), 0), 0)
    } else {
        (0, spec_max(spec_min(spec_min(net, max_power), soc - soc_min), 0))
    }
}

/// `(SoC, accumulated cost)` after the first `k` hours of the
/// self-consumption simulation.
pub open spec fn sc_state(
    net: Seq<i64>,
    price: Seq<i64>,
    max_power: int,
    soc_min: int,
    soc_max: int,
    export_coeff: int,
    initial_soc: int,
    k: int,
) -> (int, int)
    decreases k,
{
    if k <= 0 {
        (initial_soc, 0)
    } else {
        let prev = sc_state(net, price, max_power, soc_min, soc_max, export_coeff, initial_soc, k - 1);
        let act = sc_action(net[k - 1] as int, prev.0, max_power, soc_min, soc_max);
        (
            prev.0 + act.0 - act.1,
            prev.1 + spec_hour_cost(net[k - 1] as int, act.0, act.1, price[k - 1] as int, export_coeff),
        )
    }
}

/// Forward simulation of the self-consumption strategy.
///
/// The SoC trace and total cost are exactly the fold of [`sc_action`] over
/// the timeline, and the trace stays within `[soc_min, soc_max]` whenever
/// the initial SoC does.
pub fn run_self_consumption(
    net_load: &Vec<i64>,
    price: &Vec<i64>,
    max_power: i64,
    soc_min_wh: i64,
    soc_max_wh: i64,
    export_coeff: i64,
    initial_soc_wh: i64,
) -> (r: StrategyResult)
    requires
        bounded_series(net_load@, price@),
        net_load@.len() <= MAX_HOURS,
        0 <= max_power <= MAX_ENERGY,
        -MAX_ENERGY <= soc_min_wh <= MAX_ENERGY,
        -MAX_ENERGY <= soc_max_wh <= MAX_ENERGY,
        -MAX_COEFF <= export_coeff <= MAX_COEFF,
        -MAX_ENERGY <= initial_soc_wh <= MAX_ENERGY,
    ensures
        r.soc@.len() == net_load@.len(),
        forall|k: int|
            0 <= k < net_load@.len() ==> #[trigger] r.soc@[k] as int == sc_state(
                net_load@,
                price@,
                max_power as int,
                soc_min_wh as int,
                soc_max_wh as int,
                export_coeff as int,
                initial_soc_wh as int,
                k + 1,
            ).0,
        r.total_cost as int == sc_state(
            net_load@,
            price@,
            max_power as int,
            soc_min_wh as int,
            soc_max_wh as int,
            export_coeff as int,
            initial_soc_wh as int,
            net_load@.len() as int,
        ).1,
        soc_min_wh <= initial_soc_wh <= soc_max_wh ==> forall|k: int|
            0 <= k < r.soc@.len() ==> soc_min_wh <= #[trigger] r.soc@[k] <= soc_max_wh,
{
    let ghost gnet = net_load@;
    let ghost gprice = price@;
    let ghost power = max_power as int;
    let ghost smin = soc_min_wh as int;
    let ghost smax = soc_max_wh as int;
    let ghost coeff = export_coeff as int;
    let ghost init = initial_soc_wh as int;
    let t = net_load.len();
    let mut soc: Vec<i64> = Vec::new();
    let mut current_soc: i64 = initial_soc_wh;
    let mut total: i128 = 0;
    let mut i: usize = 0;
    while i < t
        invariant
            bounded_series(gnet, gprice),
            gnet == net_load@,
            gprice == price@,
            gnet.len() == t <= MAX_HOURS,
            0 <= max_power <= MAX_ENERGY,
            -MAX_ENERGY <= soc_min_wh <= MAX_ENERGY,
            -MAX_ENERGY <= soc_max_wh <= MAX_ENERGY,
            -MAX_COEFF <= export_coeff <= MAX_COEFF,
            -MAX_ENERGY <= initial_soc_wh <= MAX_ENERGY,
            power == max_power as int,
            smin == soc_min_wh as int,
            smax == soc_max_wh as int,
            coeff == export_coeff as int,
            init == initial_soc_wh as int,
            0 <= i <= t,
            current_soc as int == sc_state(gnet, gprice, power, smin, smax, coeff, init, i as int).0,
            total as int == sc_state(gnet, gprice, power, smin, smax, coeff, init, i as int).1,
            spec_min(init, smin) <= current_soc as int <= spec_max(init, smax),
            soc@.len() == i,
            forall|k: int|
                0 <= k < i ==> #[trigger] soc@[k] as int == sc_state(
                    gnet,
                    gprice,
                    power,
                    smin,
                    smax,
                    coeff,
                    init,
                    k + 1,
                ).0,
            soc_min_wh <= initial_soc_wh <= soc_max_wh ==> forall|k: int|
                0 <= k < i ==> soc_min_wh <= #[trigger] soc@[k] <= soc_max_wh,
            soc_min_wh <= initial_soc_wh <= soc_max_wh ==> soc_min_wh <= current_soc <= soc_max_wh,
            -(i as int) * hour_cost_bound() <= total as int <= (i as int) * hour_cost_bound(),
        decreases t - i,
    {
        let nl = net_load[i];
        let charge: i64;
        let discharge: i64;
        if nl < 0 {
            let mut c = -nl;
            if max_power < c {
                c = max_power;
            }
            if soc_max_wh - current_soc < c {
                c = soc_max_wh - current_soc;
            }
            if c < 0 {
                c = 0;
            }
            charge = c;
            discharge = 0;
        } else {
            let mut d = nl;
            if max_power < d {
                d = max_power;
            }
            if current_soc - soc_min_wh < d {
                d = current_soc - soc_min_wh;
            }
            if d < 0 {
                d = 0;
            }
            charge = 0;
            discharge = d;
        }
        proof {
            assert((charge as int, discharge as int) == sc_action(
                gnet[i as int] as int,
                current_soc as int,
                power,
                smin,
                smax,
            ));
            lemma_hour_cost_bound(
                gnet[i as int] as int,
                charge as int,
                discharge as int,
                gprice[i as int] as int,
                coeff,
            );
        }
        current_soc = current_soc + charge - discharge;
        soc.push(current_soc);
        let c = hour_cost(nl, charge, discharge, price[i], export_coeff);
        total = total + c;
        i = i + 1;
        proof {
            assert((i as int) * hour_cost_bound() == (i as int - 1) * hour_cost_bound()
                + hour_cost_bound()) by (nonlinear_arith);
        }
    }
    StrategyResult { soc, total_cost: total }
}

} // verus!
