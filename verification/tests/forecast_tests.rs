use flightflow::error::AnalysisError;
use flightflow::forecast::aggregate_monthly;
use flightflow::forecast::predict_passenger_counts_by_month;
use flightflow::period::parse_period;
use flightflow::record::ActivityRecord;
use flightflow::record::ActivityType;
use flightflow::regression::linear_regression;

fn rec(region: &str, t: ActivityType, count: u32, period: &str) -> ActivityRecord {
    ActivityRecord {
        geo_region: region.to_string(),
        activity_type: t,
        passenger_count: count,
        activity_period: period.to_string(),
    }
}

#[test]
pub fn test_linear_regression() {
    //Test 1: Simple linear relationship
    let x1: Vec<i64> = vec![1, 2, 3, 4, 5];
    let y1: Vec<i64> = vec![2, 4, 6, 8, 10];
    let fit1 = linear_regression(&x1, &y1).unwrap();
    let slope1 = fit1.slope.num as f64 / fit1.slope.den as f64;
    let intercept1 = fit1.intercept.num as f64 / fit1.intercept.den as f64;
    assert_eq!(slope1, 2.0); //Expected slope
    assert_eq!(intercept1, 0.0); //Expected intercept

    //Test 2: Negative slope
    let x2: Vec<i64> = vec![1, 2, 3, 4, 5];
    let y2: Vec<i64> = vec![10, 8, 6, 4, 2];
    let fit2 = linear_regression(&x2, &y2).unwrap();
    let slope2 = fit2.slope.num as f64 / fit2.slope.den as f64;
    let intercept2 = fit2.intercept.num as f64 / fit2.intercept.den as f64;
    assert_eq!(slope2, -2.0); //Expected slope
    assert_eq!(intercept2, 12.0); //Expected intercept
}

#[test]
fn regression_with_identical_x_is_degenerate() {
    let x: Vec<i64> = vec![3, 3, 3];
    let y: Vec<i64> = vec![1, 2, 3];
    assert!(matches!(
        linear_regression(&x, &y),
        Err(AnalysisError::DegenerateRegression)
    ));
    assert!(matches!(
        linear_regression(&[], &[]),
        Err(AnalysisError::DegenerateRegression)
    ));
}

#[test]
fn parse_period_accepts_yyyymm_and_rejects_malformed() {
    assert_eq!(parse_period("202301").unwrap(), (2023, 1));
    assert_eq!(parse_period("202312").unwrap(), (2023, 12));
    assert_eq!(parse_period("000101").unwrap(), (1, 1));
    // the month segment is whatever digits follow the four year digits
    assert_eq!(parse_period("2023005").unwrap(), (2023, 5));
    // at least five characters are required
    assert!(matches!(
        parse_period("2023"),
        Err(AnalysisError::MalformedPeriod)
    ));
    // non-digits in either segment
    assert!(matches!(
        parse_period("20A301"),
        Err(AnalysisError::MalformedPeriod)
    ));
    assert!(matches!(
        parse_period("2023x1"),
        Err(AnalysisError::MalformedPeriod)
    ));
    // the month segment must be a calendar month
    assert!(matches!(
        parse_period("202300"),
        Err(AnalysisError::MalformedPeriod)
    ));
    assert!(matches!(
        parse_period("202313"),
        Err(AnalysisError::MalformedPeriod)
    ));
}

#[test]
fn monthly_aggregate_sums_all_activity_kinds() {
    // the end-to-end scenario: two records, one month apart
    let records = vec![
        rec("Asia", ActivityType::Enplaned, 100, "202301"),
        rec("Asia", ActivityType::Deplaned, 50, "202302"),
    ];
    let agg = aggregate_monthly(&records).unwrap();
    assert_eq!(agg.months.len(), 2);
    assert_eq!(agg.months[0].key(), "2023-01");
    assert_eq!(agg.months[0].total, 100);
    assert_eq!(agg.months[1].key(), "2023-02");
    assert_eq!(agg.months[1].total, 50);
}

#[test]
fn monthly_aggregate_includes_unknown_records() {
    let records = vec![
        rec("Asia", ActivityType::Enplaned, 100, "202301"),
        rec("Europe", ActivityType::Unknown, 40, "202301"),
    ];
    let agg = aggregate_monthly(&records).unwrap();
    assert_eq!(agg.months.len(), 1);
    assert_eq!(agg.months[0].total, 140);
}

#[test]
fn monthly_aggregate_reports_malformed_periods() {
    let records = vec![
        rec("Asia", ActivityType::Enplaned, 100, "202301"),
        rec("Asia", ActivityType::Enplaned, 100, "2023"),
    ];
    assert!(matches!(
        aggregate_monthly(&records),
        Err(AnalysisError::MalformedPeriod)
    ));
}

#[test]
fn forecast_needs_two_distinct_months() {
    // records spanning exactly one calendar month
    let records = vec![
        rec("Asia", ActivityType::Enplaned, 100, "202301"),
        rec("Europe", ActivityType::Deplaned, 50, "202301"),
        rec("Asia", ActivityType::ThruTransit, 25, "202301"),
    ];
    assert!(matches!(
        predict_passenger_counts_by_month(&records),
        Err(AnalysisError::InsufficientData)
    ));
    assert!(matches!(
        predict_passenger_counts_by_month(&[]),
        Err(AnalysisError::InsufficientData)
    ));
}

#[test]
fn forecast_extrapolates_twelve_months_of_next_year() {
    // monthly totals grow by exactly 100 per month, so the fitted line
    // is y = 100·x + c with zero residue and every prediction is exact
    let records = vec![
        rec("Asia", ActivityType::Enplaned, 100, "202301"),
        rec("Asia", ActivityType::Deplaned, 200, "202302"),
        rec("Europe", ActivityType::Enplaned, 300, "202303"),
    ];
    let table = predict_passenger_counts_by_month(&records).unwrap();
    assert_eq!(table.entries.len(), 12);
    for (j, entry) in table.entries.iter().enumerate() {
        let month = j as u32 + 1;
        assert_eq!(entry.period, format!("2024-{:02}", month));
        // x(2023, m) = 12*2023 + m; y = 100*m, so y = 100*x - 100*12*2023
        let expected = 100 * (12 * 2024 + month) - 100 * 12 * 2023;
        assert_eq!(entry.predicted, expected);
    }
}

#[test]
fn forecast_clamps_negative_predictions_to_zero() {
    // a steeply falling series: every next-year prediction is negative
    let records = vec![
        rec("Asia", ActivityType::Enplaned, 100, "202301"),
        rec("Asia", ActivityType::Enplaned, 50, "202302"),
    ];
    let table = predict_passenger_counts_by_month(&records).unwrap();
    assert_eq!(table.entries.len(), 12);
    for entry in &table.entries {
        assert_eq!(entry.predicted, 0);
    }
}

#[test]
fn forecast_uses_chronologically_last_year() {
    // later period appears first in the stream
    let records = vec![
        rec("Asia", ActivityType::Enplaned, 300, "202503"),
        rec("Asia", ActivityType::Enplaned, 100, "202401"),
        rec("Asia", ActivityType::Enplaned, 200, "202402"),
    ];
    let table = predict_passenger_counts_by_month(&records).unwrap();
    assert!(table.entries[0].period.starts_with("2026-"));
}
