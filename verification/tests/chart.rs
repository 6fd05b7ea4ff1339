use fukuoka_c19::aggregate::Entry;
use fukuoka_c19::chart::build_chart;
use fukuoka_c19::chart::ema_values;
use fukuoka_c19::chart::max_count;
use fukuoka_c19::chart::scale_ceiling;
use fukuoka_c19::chart::sma_values;

fn entry(label: &str, count: u32) -> Entry {
    Entry { label: String::from(label), count }
}

#[test]
fn exact_multiple_of_step_still_rounds_a_full_step_up() {
    assert_eq!(scale_ceiling(2000), 4000);
}

#[test]
fn ceiling_is_the_next_multiple_of_two_thousand() {
    assert_eq!(scale_ceiling(0), 2000);
    assert_eq!(scale_ceiling(1), 2000);
    assert_eq!(scale_ceiling(1999), 2000);
    assert_eq!(scale_ceiling(2001), 4000);
    assert_eq!(scale_ceiling(u32::MAX), 4294968000);
}

#[test]
fn maximum_of_counts() {
    assert_eq!(max_count(&vec![3, 17, 5]), 17);
    assert_eq!(max_count(&vec![4]), 4);
}

#[test]
fn ema_starts_at_the_first_value_and_follows_the_recurrence() {
    let out = ema_values(&vec![10, 20, 10, 20, 10, 20, 10]);
    assert_eq!(out.len(), 7);
    // hundredths: the first point is the seed itself
    assert_eq!(out[0], 1000);
    // 10 * 6/7 + 20/7 = 80/7 = 11.43 once rounded to the nearest hundredth
    assert_eq!(out[1], 1143);
    // each further point is the rounded ema * 6/7 + value/7
    for i in 1..out.len() {
        let v = if i % 2 == 0 { 10u64 } else { 20u64 };
        let a = 6 * out[i - 1] + 100 * v;
        assert_eq!(out[i], (2 * a + 7) / 14);
    }
}

#[test]
fn sma_of_identical_values_is_that_value_at_every_window() {
    let out = sma_values(&vec![5, 5, 5, 5, 5, 5, 5]);
    assert_eq!(out, vec![500, 500, 500, 500, 500, 500, 500]);
}

#[test]
fn sma_front_pads_with_the_first_value() {
    let out = sma_values(&vec![10, 20]);
    // first window: seven tens; second: six tens and a twenty
    assert_eq!(out[0], 1000);
    assert_eq!(out[1], 1143);
}

#[test]
fn raw_path_plots_each_count() {
    let data = vec![entry("a", 1000), entry("b", 2000)];
    let chart = build_chart(&data, false);
    assert_eq!(chart.ceiling, 4000);
    assert_eq!(chart.raw, "M0,75.00 L0.00,75.00 L400.00,50.00");
    assert_eq!(chart.ema, "");
    assert_eq!(chart.sma, "");
}

#[test]
fn overlays_appear_only_when_asked_for() {
    let data = vec![entry("a", 10), entry("b", 20)];
    let chart = build_chart(&data, true);
    assert_eq!(chart.ceiling, 2000);
    assert_eq!(chart.raw, "M0,99.50 L0.00,99.50 L400.00,99.00");
    assert_eq!(chart.ema, "M0,99.50 L0.00,99.50 L400.00,99.43");
    assert_eq!(chart.sma, "M0,99.50 L0.00,99.50 L400.00,99.43");
}

#[test]
fn single_point_chart_draws_no_path() {
    let data = vec![entry("a", 123)];
    let chart = build_chart(&data, true);
    assert_eq!(chart.ceiling, 2000);
    assert_eq!(chart.raw, "");
    assert_eq!(chart.ema, "");
    assert_eq!(chart.sma, "");
}

#[test]
fn three_point_path_spaces_points_evenly() {
    let data = vec![entry("a", 2000), entry("b", 1000), entry("c", 3000)];
    let chart = build_chart(&data, false);
    assert_eq!(chart.ceiling, 4000);
    assert_eq!(chart.raw, "M0,50.00 L0.00,50.00 L200.00,75.00 L400.00,25.00");
}
