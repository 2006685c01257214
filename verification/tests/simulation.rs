use battery_optimizer::cost::{hour_cost, no_battery_cost};
use battery_optimizer::percentile::daily_percentiles;
use battery_optimizer::simulate::{simulate, BatteryParams, DayRecord};

fn day(date: &str, net: Vec<i64>, price: Vec<i64>) -> DayRecord {
    DayRecord { date: String::from(date), net_load_w: net, price }
}

#[test]
fn hour_cost_import_pays_full_price() {
    // 1000 Wh imported at price 500: 1000 * 500 * 1000.
    assert_eq!(hour_cost(1000, 0, 0, 500, 800), 500_000_000i128);
}

#[test]
fn hour_cost_export_earns_coefficient_share() {
    // 1000 Wh exported at price 500 with 800 permille credit.
    assert_eq!(hour_cost(-1000, 0, 0, 500, 800), -400_000_000i128);
}

#[test]
fn hour_cost_battery_action_shifts_net() {
    // net = 300 + 700 - 500 = 500 imported at price 10.
    assert_eq!(hour_cost(300, 700, 500, 10, 1000), 5_000_000i128);
    // Charging turns an exact surplus into zero net flow.
    assert_eq!(hour_cost(-800, 800, 0, 250, 1000), 0i128);
}

#[test]
fn percentile_convention_matches_truncating_index() {
    // n = 5: p33 index = floor(4*33/100) = 1, p67 index = floor(4*67/100) = 2.
    let prices: Vec<i64> = vec![5, 1, 3, 2, 4];
    assert_eq!(daily_percentiles(&prices), (2, 3));
}

#[test]
fn percentile_empty_and_singleton() {
    let empty: Vec<i64> = vec![];
    assert_eq!(daily_percentiles(&empty), (0, 0));
    let one: Vec<i64> = vec![42];
    assert_eq!(daily_percentiles(&one), (42, 42));
}

#[test]
fn baseline_is_cost_model_with_zero_action() {
    let net: Vec<i64> = vec![1000, -500];
    let price: Vec<i64> = vec![200, 300];
    let total = no_battery_cost(&net, &price, 500);
    // 1000*200*1000 - 500*300*500
    assert_eq!(total, 125_000_000i128);
    // Recompute hour by hour with zero charge/discharge.
    let recomputed = hour_cost(1000, 0, 0, 200, 500) + hour_cost(-500, 0, 0, 300, 500);
    assert_eq!(total, recomputed);
}

fn default_params() -> BatteryParams {
    BatteryParams {
        capacity_wh: 10_000_000,
        max_power_w: 5000,
        soc_min_pct: 10,
        soc_max_pct: 90,
        export_coeff: 800,
    }
}

#[test]
fn empty_days_yield_empty_result() {
    let days: Vec<DayRecord> = vec![];
    let r = simulate(&days, &default_params());
    assert_eq!(r.hours, 0);
    assert!(r.dates.is_empty());
    assert!(r.net_load_w.is_empty());
    assert!(r.price.is_empty());
    assert!(r.heuristic.soc.is_empty());
    assert!(r.self_consumption.soc.is_empty());
    assert!(r.optimal.soc.is_empty());
    assert_eq!(r.heuristic.total_cost, 0);
    assert_eq!(r.self_consumption.total_cost, 0);
    assert_eq!(r.optimal.total_cost, 0);
    assert_eq!(r.no_battery_cost, 0);
}

#[test]
fn self_consumption_scenario_two_hours() {
    // One day, two hours: import 1000 Wh then surplus 1000 Wh at price 500.
    // Full capacity available: the surplus is absorbed entirely in hour 2,
    // nothing can be discharged in hour 1 (SoC starts at soc_min = 0).
    let days = vec![day("2024-06-01", vec![1000, -1000], vec![500, 500])];
    let params = BatteryParams {
        capacity_wh: 2000,
        max_power_w: 1000,
        soc_min_pct: 0,
        soc_max_pct: 100,
        export_coeff: 1000,
    };
    let r = simulate(&days, &params);
    assert_eq!(r.hours, 2);
    assert_eq!(r.self_consumption.soc, vec![0, 1000]);
    // Hour 1 equals the no-battery hour, hour 2 costs nothing.
    let hour1 = hour_cost(1000, 0, 0, 500, 1000);
    assert_eq!(r.self_consumption.total_cost, hour1);
    assert_eq!(hour1, 500_000_000i128);
    // Baseline: hour 1 import, hour 2 export at full credit cancel out.
    assert_eq!(r.no_battery_cost, 0);
    // The optimizer never does worse than this schedule or the baseline.
    assert!(r.optimal.total_cost <= r.self_consumption.total_cost);
    assert!(r.optimal.total_cost <= r.no_battery_cost);
    // Equal thresholds (all prices equal): the heuristic charges both hours.
    assert_eq!(r.heuristic.soc, vec![1000, 2000]);
    assert_eq!(r.heuristic.total_cost, hour_cost(1000, 1000, 0, 500, 1000));
}

#[test]
fn heuristic_charges_cheap_discharges_expensive() {
    // One day, prices 1 / 10 / 100 and no load. For n = 3 the thresholds are
    // p33 = sorted[0] = 1 and p67 = sorted[1] = 10, so the battery charges in
    // hour 1 and discharges in hours 2 and 3 (nothing left by hour 3).
    let days = vec![day("2024-06-02", vec![0, 0, 0], vec![1, 10, 100])];
    let params = BatteryParams {
        capacity_wh: 10_000,
        max_power_w: 2000,
        soc_min_pct: 0,
        soc_max_pct: 100,
        export_coeff: 0,
    };
    let r = simulate(&days, &params);
    assert_eq!(r.heuristic.soc, vec![2000, 0, 0]);
    assert_eq!(r.heuristic.total_cost, 2_000_000i128);
}

#[test]
fn optimal_arbitrages_cheap_to_expensive() {
    // Price 1 then 1000, no load, full export credit: the optimizer charges
    // the reachable 1000 Wh in hour 1 and sells it in hour 2.
    let days = vec![day("2024-06-03", vec![0, 0], vec![1, 1000])];
    let params = BatteryParams {
        capacity_wh: 2000,
        max_power_w: 1000,
        soc_min_pct: 0,
        soc_max_pct: 100,
        export_coeff: 1000,
    };
    let r = simulate(&days, &params);
    assert_eq!(r.optimal.soc, vec![1000, 0]);
    // 1000*1*1000 - 1000*1000*1000
    assert_eq!(r.optimal.total_cost, -999_000_000i128);
    assert_eq!(r.no_battery_cost, 0);
    assert!(r.optimal.total_cost <= r.no_battery_cost);
}

#[test]
fn degenerate_capacity_holds_soc_and_pays_baseline() {
    let days = vec![day("2024-06-04", vec![500, -200], vec![300, 400])];
    let params = BatteryParams {
        capacity_wh: 5000,
        max_power_w: 1000,
        soc_min_pct: 50,
        soc_max_pct: 50,
        export_coeff: 800,
    };
    let r = simulate(&days, &params);
    // soc_min = soc_max = 2500 Wh: no action possible.
    assert_eq!(r.optimal.soc, vec![2500, 2500]);
    assert_eq!(r.optimal.total_cost, r.no_battery_cost);
    // 500*300*1000 - 200*400*800
    assert_eq!(r.no_battery_cost, 86_000_000i128);
}

#[test]
fn thresholds_are_per_day_not_global() {
    // Day 1 is uniformly cheap, day 2 uniformly expensive. Per-day
    // thresholds make every hour hit the charge branch (price <= its own
    // day's p33); global thresholds would discharge on day 2 instead.
    let days = vec![
        day("2024-06-05", vec![0, 0], vec![10, 10]),
        day("2024-06-06", vec![0, 0], vec![1000, 1000]),
    ];
    let params = BatteryParams {
        capacity_wh: 4000,
        max_power_w: 1000,
        soc_min_pct: 0,
        soc_max_pct: 100,
        export_coeff: 0,
    };
    let r = simulate(&days, &params);
    assert_eq!(r.heuristic.soc, vec![1000, 2000, 3000, 4000]);
    assert_eq!(r.heuristic.total_cost, 2_020_000_000i128);
    assert_eq!(r.dates, vec![String::from("2024-06-05"), String::from("2024-06-06")]);
    assert_eq!(r.net_load_w, vec![0, 0, 0, 0]);
    assert_eq!(r.price, vec![10, 10, 1000, 1000]);
}

#[test]
fn soc_traces_stay_within_bounds() {
    let days = vec![
        day("2024-06-07", vec![2000, -3000, 500], vec![50, 700, 300]),
        day("2024-06-08", vec![-1500, 4000], vec![900, 20]),
    ];
    let params = BatteryParams {
        capacity_wh: 4000,
        max_power_w: 2500,
        soc_min_pct: 20,
        soc_max_pct: 80,
        export_coeff: 600,
    };
    let r = simulate(&days, &params);
    let soc_min = 4000 * 20 / 100;
    let soc_max = 4000 * 80 / 100;
    for trace in [&r.heuristic.soc, &r.self_consumption.soc, &r.optimal.soc] {
        assert_eq!(trace.len(), 5);
        for &s in trace.iter() {
            assert!(soc_min <= s && s <= soc_max);
        }
    }
    assert!(r.optimal.total_cost <= r.no_battery_cost);
}

#[test]
fn identical_inputs_give_identical_outputs() {
    let days = vec![
        day("2024-06-09", vec![1200, -800, 300], vec![150, 420, 260]),
        day("2024-06-10", vec![-500, 900], vec![80, 610]),
    ];
    let params = BatteryParams {
        capacity_wh: 6000,
        max_power_w: 1500,
        soc_min_pct: 10,
        soc_max_pct: 90,
        export_coeff: 750,
    };
    let a = simulate(&days, &params);
    let b = simulate(&days, &params);
    assert_eq!(a.hours, b.hours);
    assert_eq!(a.dates, b.dates);
    assert_eq!(a.net_load_w, b.net_load_w);
    assert_eq!(a.price, b.price);
    assert_eq!(a.heuristic.soc, b.heuristic.soc);
    assert_eq!(a.heuristic.total_cost, b.heuristic.total_cost);
    assert_eq!(a.self_consumption.soc, b.self_consumption.soc);
    assert_eq!(a.self_consumption.total_cost, b.self_consumption.total_cost);
    assert_eq!(a.optimal.soc, b.optimal.soc);
    assert_eq!(a.optimal.total_cost, b.optimal.total_cost);
    assert_eq!(a.no_battery_cost, b.no_battery_cost);
}

#[test]
fn optimal_power_exceeding_range_reaches_every_bin() {
    // The power limit (5000) exceeds the whole usable range (2000), so every
    // bin is reachable in one hour: the optimizer fills the battery at price
    // 1 and empties it at price 1000.
    let days = vec![day("2024-06-12", vec![0, 0], vec![1, 1000])];
    let params = BatteryParams {
        capacity_wh: 2000,
        max_power_w: 5000,
        soc_min_pct: 0,
        soc_max_pct: 100,
        export_coeff: 1000,
    };
    let r = simulate(&days, &params);
    assert_eq!(r.optimal.soc, vec![2000, 0]);
    // 2000*1*1000 - 2000*1000*1000
    assert_eq!(r.optimal.total_cost, -1_998_000_000i128);
}

#[test]
fn optimal_rounds_initial_soc_to_nearest_bin() {
    // Range 0..2000 over 200 bins (10 Wh each); 1234 Wh rounds to bin 123,
    // i.e. 1230 Wh. With zero power the battery can only hold that level.
    let net: Vec<i64> = vec![0];
    let price: Vec<i64> = vec![100];
    let r = battery_optimizer::optimal::run_optimal(&net, &price, 0, 0, 2000, 0, 1234);
    assert_eq!(r.soc, vec![1230]);
    assert_eq!(r.total_cost, 0);
}

#[test]
fn self_consumption_never_charges_from_grid() {
    // All hours are imports: the battery can only discharge, and with an
    // empty battery (start at soc_min) it does nothing at all.
    let days = vec![day("2024-06-11", vec![700, 900], vec![100, 200])];
    let params = BatteryParams {
        capacity_wh: 5000,
        max_power_w: 2000,
        soc_min_pct: 0,
        soc_max_pct: 100,
        export_coeff: 500,
    };
    let r = simulate(&days, &params);
    assert_eq!(r.self_consumption.soc, vec![0, 0]);
    assert_eq!(r.self_consumption.total_cost, r.no_battery_cost);
}
