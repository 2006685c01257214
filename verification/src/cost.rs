//! Hourly grid-cost model and the no-battery baseline.
//!
//! Units: net load, charge and discharge are energies in Wh for a one-hour
//! slot; prices are in the caller's price unit per kWh; the export-revenue
//! coefficient is in permille (1000 = full price credited for exports).
//! A cost of `c` therefore stands for `c / 1_000_000` price units:
//! `cost = import_wh * price * 1000 - export_wh * price * coeff_permille`
//! equals one million times `(import * price - export * price * coeff) / 1000`
//! with the coefficient read as a fraction of one.

use vstd::prelude::*;

verus! {

/// Largest magnitude accepted for a net-load value and for the battery's
/// energy quantities (capacity, SoC bounds, hourly power), in Wh.
pub const MAX_ENERGY: i64 = 100_000_000;

/// Largest price magnitude accepted, in price units per kWh.
pub const MAX_PRICE: i64 = 100_000_000;

/// Largest magnitude accepted for the permille export coefficient.
/// A physically meaningful coefficient lies in `[0, 1000]`; the wider bound
/// only keeps the fixed-point arithmetic within `i128`.
pub const MAX_COEFF: i64 = 1_000_000;

/// Largest number of timeline hours accepted in one invocation.
pub const MAX_HOURS: usize = 1_000_000;

/// Net grid cost of one hour: the battery action is added to the net load,
/// a positive remainder is imported at full price and a negative remainder
/// is exported at `export_coeff` permille of the price.
pub open spec fn spec_hour_cost(
    net_load: int,
    charge: int,
    discharge: int,
    price: int,
    export_coeff: int,
) -> int {
    let net = net_load + charge - discharge;
    let imp = if net > 0 { net } else { 0 };
    let exp = if net < 0 { -net } else { 0 };
    imp * price * 1000 - exp * price * export_coeff
}

/// Bound on one hour's cost magnitude under the library's input bounds:
/// `|net| <= 7 * MAX_ENERGY`, so each term is below `7e8 * 1e8 * 1e6`.
pub open spec fn hour_cost_bound() -> int {
    100_000_000_000_000_000_000_000
}

pub proof fn lemma_mul_abs_bound(a: int, b: int, aa: int, bb: int)
    by (nonlinear_arith)
    requires
        -aa <= a <= aa,
        -bb <= b <= bb,
    ensures
        -(aa * bb) <= a * b <= aa * bb,
{
}

/// One hour's cost stays within `hour_cost_bound()` whenever the inputs obey
/// the library's bounds.
pub proof fn lemma_hour_cost_bound(
    net_load: int,
    charge: int,
    discharge: int,
    price: int,
    export_coeff: int,
)
    requires
        -MAX_ENERGY <= net_load <= MAX_ENERGY,
        0 <= charge <= 3 * MAX_ENERGY,
        0 <= discharge <= 3 * MAX_ENERGY,
        -MAX_PRICE <= price <= MAX_PRICE,
        -MAX_COEFF <= export_coeff <= MAX_COEFF,
    ensures
        -hour_cost_bound() <= spec_hour_cost(net_load, charge, discharge, price, export_coeff)
            <= hour_cost_bound(),
{
    let net = net_load + charge - discharge;
    let imp = if net > 0 { net } else { 0 };
    let exp = if net < 0 { -net } else { 0 };
    lemma_mul_abs_bound(imp, price, 7 * MAX_ENERGY as int, MAX_PRICE as int);
    lemma_mul_abs_bound(imp * price, 1000, 7 * MAX_ENERGY as int * MAX_PRICE as int, 1000);
    lemma_mul_abs_bound(exp, price, 7 * MAX_ENERGY as int, MAX_PRICE as int);
    lemma_mul_abs_bound(
        exp * price,
        export_coeff,
        7 * MAX_ENERGY as int * MAX_PRICE as int,
        MAX_COEFF as int,
    );
}

/// Compute one hour's grid cost.
pub fn hour_cost(
    net_load: i64,
    charge: i64,
    discharge: i64,
    price: i64,
    export_coeff: i64,
) -> (c: i128)
    requires
        -MAX_ENERGY <= net_load <= MAX_ENERGY,
        0 <= charge <= 3 * MAX_ENERGY,
        0 <= discharge <= 3 * MAX_ENERGY,
        -MAX_PRICE <= price <= MAX_PRICE,
        -MAX_COEFF <= export_coeff <= MAX_COEFF,
    ensures
        c == spec_hour_cost(
            net_load as int,
            charge as int,
            discharge as int,
            price as int,
            export_coeff as int,
        ),
        -hour_cost_bound() <= c <= hour_cost_bound(),
{
    proof {
        lemma_hour_cost_bound(
            net_load as int,
            charge as int,
            discharge as int,
            price as int,
            export_coeff as int,
        );
    }
    let net: i64 = net_load + charge - discharge;
    let imp: i128 = if net > 0 {
        net as i128
    } else {
        0
    };
    let exp: i128 = if net < 0 {
        -(net as i128)
    } else {
        0
    };
    proof {
        lemma_mul_abs_bound(imp as int, price as int, 7 * MAX_ENERGY as int, MAX_PRICE as int);
        lemma_mul_abs_bound(
            imp as int * price as int,
            1000,
            7 * MAX_ENERGY as int * MAX_PRICE as int,
            1000,
        );
        lemma_mul_abs_bound(exp as int, price as int, 7 * MAX_ENERGY as int, MAX_PRICE as int);
        lemma_mul_abs_bound(
            exp as int * price as int,
            export_coeff as int,
            7 * MAX_ENERGY as int * MAX_PRICE as int,
            MAX_COEFF as int,
        );
    }
    imp * (price as i128) * 1000 - exp * (price as i128) * (export_coeff as i128)
}

/// Both hourly series are within the library's magnitude bounds and equally
/// long.
pub open spec fn bounded_series(net: Seq<i64>, price: Seq<i64>) -> bool {
    &&& net.len() == price.len()
    &&& forall|i: int| 0 <= i < net.len() ==> -MAX_ENERGY <= #[trigger] net[i] <= MAX_ENERGY
    &&& forall|i: int| 0 <= i < price.len() ==> -MAX_PRICE <= #[trigger] price[i] <= MAX_PRICE
}

/// Total cost of the first `k` hours with no battery action at all.
pub open spec fn spec_baseline_cost(net: Seq<i64>, price: Seq<i64>, export_coeff: int, k: int) -> int
    decreases k,
{
    if k <= 0 {
        0
    } else {
        spec_baseline_cost(net, price, export_coeff, k - 1) + spec_hour_cost(
            net[k - 1] as int,
            0,
            0,
            price[k - 1] as int,
            export_coeff,
        )
    }
}

/// The baseline cost of `k` hours is bounded by `k` times the hourly bound.
pub proof fn lemma_baseline_cost_bound(net: Seq<i64>, price: Seq<i64>, export_coeff: int, k: int)
    requires
        bounded_series(net, price),
        -MAX_COEFF <= export_coeff <= MAX_COEFF,
        0 <= k <= net.len(),
    ensures
        -k * hour_cost_bound() <= spec_baseline_cost(net, price, export_coeff, k)
            <= k * hour_cost_bound(),
    decreases k,
{
    if k > 0 {
        lemma_baseline_cost_bound(net, price, export_coeff, k - 1);
        lemma_hour_cost_bound(net[k - 1] as int, 0, 0, price[k - 1] as int, export_coeff);
        assert((k - 1) * hour_cost_bound() == k * hour_cost_bound() - hour_cost_bound())
            by (nonlinear_arith);
    }
}

/// Total cost over the whole timeline with no battery: the cost model summed
/// with zero charge and zero discharge at every hour.
pub fn no_battery_cost(net_load: &Vec<i64>, price: &Vec<i64>, export_coeff: i64) -> (total: i128)
    requires
        bounded_series(net_load@, price@),
        net_load@.len() <= MAX_HOURS,
        -MAX_COEFF <= export_coeff <= MAX_COEFF,
    ensures
        total == spec_baseline_cost(
            net_load@,
            price@,
            export_coeff as int,
            net_load@.len() as int,
        ),
{
    let t = net_load.len();
    let mut total: i128 = 0;
    let mut i: usize = 0;
    while i < t
        invariant
            bounded_series(net_load@, price@),
            net_load@.len() == t <= MAX_HOURS,
            -MAX_COEFF <= export_coeff <= MAX_COEFF,
            0 <= i <= t,
            total == spec_baseline_cost(net_load@, price@, export_coeff as int, i as int),
            -(i as int) * hour_cost_bound() <= total <= (i as int) * hour_cost_bound(),
        decreases t - i,
    {
        let c = hour_cost(net_load[i], 0, 0, price[i], export_coeff);
        proof {
            lemma_baseline_cost_bound(net_load@, price@, export_coeff as int, i as int + 1);
        }
        total = total + c;
        i = i + 1;
    }
    total
}

} // verus!
