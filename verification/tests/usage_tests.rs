use rustspell_server::civil::{format_day, parse_day};
use rustspell_server::error::AppError;
use rustspell_server::usage::{
    aggregate_daily, aggregate_errors, aggregate_languages, aggregate_latency, bucket_for,
    epoch_day_now, language_inputs_fit, latency_inputs_fit, percentile, resolve_window,
    resolve_window_at, retention_cutoff_day_at, usage_labels,
    UsageDailyRow, UsageLatencyRow, UsageQuery, UsageRecorder, BUCKET_OVERFLOW,
    DEFAULT_WINDOW_DAYS,
};

fn row(day: &str, language: &str, status: i64, slug: &str, count: i64, sum_us: i64) -> UsageDailyRow {
    UsageDailyRow {
        day: day.to_string(),
        language: language.to_string(),
        status,
        error_slug: slug.to_string(),
        request_count: count,
        latency_sum_us: sum_us,
    }
}

fn latency_row(day: &str, bucket: i64, count: i64) -> UsageLatencyRow {
    UsageLatencyRow { day: day.to_string(), bucket_le_ms: bucket, request_count: count }
}

#[test]
fn civil_date_roundtrips_across_epoch_and_leap_years() {
    for day in [-25_567i64, 0, 1, 19_000, 20_301, 25_000] {
        assert_eq!(parse_day(&format_day(day)), Some(day), "day {day}");
    }
    assert_eq!(format_day(0), "1970-01-01");
    assert_eq!(parse_day("2024-02-29"), Some(19_782));
    assert_eq!(format_day(19_782), "2024-02-29");
}

#[test]
fn parse_day_rejects_malformed_and_impossible_dates() {
    for bad in [
        "2026-13-01",
        "2026-00-10",
        "2026-02-30",
        "2025-02-29", // not a leap year
        "2026-1-01",
        "20260101",
        "",
        "not-a-date",
    ] {
        assert!(parse_day(bad).is_none(), "should reject {bad}");
    }
}

#[test]
fn format_day_prints_early_and_negative_years_padded() {
    // 0001-01-01 and the day before 0000-01-01.
    assert_eq!(format_day(-719_162), "0001-01-01");
    assert_eq!(format_day(-719_529), "-001-12-31");
    assert_eq!(parse_day("0001-01-01"), Some(-719_162));
}

#[test]
fn bucket_for_rounds_up_to_inclusive_bound() {
    assert_eq!(bucket_for(500), 1);
    assert_eq!(bucket_for(1_000), 1);
    assert_eq!(bucket_for(3_000), 5);
    assert_eq!(bucket_for(1_000_000), 1_000);
    assert_eq!(bucket_for(1_001_000), BUCKET_OVERFLOW);
}

#[test]
fn percentile_interpolates_within_the_crossing_bucket() {
    // 100 requests, all in the 5..=10 ms bucket: p50 lands halfway.
    let buckets = vec![(1, 0), (2, 0), (5, 0), (10, 100)];
    assert_eq!(percentile(&buckets, 50), Some(8));

    // Half at <=1 ms, half at <=100 ms. Rank 99 of 100 sits 98% of the
    // way into the second bucket: 1 + (100 - 1) * 0.98 = 98.02.
    let buckets = vec![(1, 50), (100, 50)];
    assert_eq!(percentile(&buckets, 50), Some(1));
    assert_eq!(percentile(&buckets, 99), Some(98));
}

#[test]
fn percentile_clamps_overflow_to_last_finite_boundary() {
    let buckets = vec![(1, 10), (BUCKET_OVERFLOW, 90)];
    assert_eq!(percentile(&buckets, 99), Some(1_000));
}

#[test]
fn percentile_of_empty_histogram_is_none() {
    assert_eq!(percentile(&vec![], 50), None);
    assert_eq!(percentile(&vec![(1, 0), (10, 0)], 50), None);
}

#[test]
fn percentile_orders_buckets_by_bound_whatever_the_input_order() {
    let buckets = vec![(100, 50), (1, 50)];
    assert_eq!(percentile(&buckets, 99), Some(98));
    assert_eq!(percentile(&buckets, 0), Some(0));
    assert_eq!(percentile(&buckets, 100), Some(100));
}

#[test]
fn recorder_accumulates_and_drains_once() {
    let mut recorder = UsageRecorder::new();
    recorder.record("t1", "en_US", 200, "", 3_000);
    recorder.record("t1", "en_US", 200, "", 4_000);
    recorder.record("t1", "en_US", 400, "validation-error", 1_000);

    let (daily, latency) = recorder.drain();
    assert_eq!(daily.len(), 2, "one row per (status, slug) pair");
    let ok = daily.iter().find(|(k, _)| k.status == 200).expect("200 row present");
    assert_eq!(ok.1.request_count, 2);
    assert_eq!(ok.1.latency_sum_us, 7_000);

    let total: i64 = latency.iter().map(|(_, c)| *c).sum();
    assert_eq!(total, 3);

    // Draining empties the buffer, so a second flush writes nothing.
    let (daily, latency) = recorder.drain();
    assert!(daily.is_empty() && latency.is_empty());
}

#[test]
fn recorder_keys_by_day_and_bucket() {
    let mut recorder = UsageRecorder::new();
    recorder.record_on_day(&"2026-07-30".to_string(), "t1", "en_US", 200, "", 3_000);
    recorder.record_on_day(&"2026-07-31".to_string(), "t1", "en_US", 200, "", 3_000);
    recorder.record_on_day(&"2026-07-31".to_string(), "t1", "en_US", 200, "", 30_000);
    let (daily, latency) = recorder.drain();
    assert_eq!(daily.len(), 2);
    assert_eq!(daily[1].0.day, "2026-07-31");
    assert_eq!(daily[1].1.request_count, 2);
    assert_eq!(daily[1].1.latency_sum_us, 33_000);
    assert_eq!(latency.len(), 3);
    assert_eq!(latency[2].0.bucket_le_ms, 50);
}

#[test]
fn aggregate_daily_sums_per_day_and_counts_only_4xx_5xx_as_errors() {
    let rows = vec![
        row("2026-07-30", "en_US", 200, "", 8, 16_000),
        row("2026-07-30", "en_US", 400, "validation-error", 2, 2_000),
        row("2026-07-31", "en_US", 200, "", 5, 10_000),
    ];
    let out = aggregate_daily(&rows);
    assert_eq!(out.len(), 2);
    assert_eq!(out[0].date, "2026-07-30");
    assert_eq!(out[0].requests, 10);
    assert_eq!(out[0].errors, 2);
    assert_eq!(out[0].average_latency_ms, 1); // 18_000us / 10 / 1000
    assert_eq!(out[1].errors, 0);
}

#[test]
fn aggregate_daily_sorts_days_and_averages_to_whole_milliseconds() {
    let rows = vec![
        row("2026-08-02", "en_US", 500, "internal-error", 3, 9_999_000),
        row("2026-08-01", "es", 200, "", 0, 0),
    ];
    let out = aggregate_daily(&rows);
    assert_eq!(out.len(), 2);
    assert_eq!(out[0].date, "2026-08-01");
    assert_eq!(out[0].requests, 0);
    assert_eq!(out[0].average_latency_ms, 0);
    assert_eq!(out[1].average_latency_ms, 3_333);
    assert_eq!(out[1].errors, 3);
    assert!(aggregate_daily(&vec![]).is_empty());
}

#[test]
fn aggregate_errors_excludes_success_and_keeps_both_dimensions() {
    let rows = vec![
        row("2026-07-30", "en_US", 200, "", 100, 0),
        row("2026-07-30", "en_US", 400, "validation-error", 3, 0),
        row("2026-07-31", "en_US", 400, "validation-error", 4, 0),
    ];
    let flat = aggregate_errors(&rows, false);
    assert_eq!(flat.len(), 1);
    assert_eq!(flat[0].count, 7);
    assert_eq!(flat[0].status, 400);
    assert_eq!(flat[0].error_code, "validation-error");
    assert!(flat[0].date.is_none());

    let dated = aggregate_errors(&rows, true);
    assert_eq!(dated.len(), 2);
    assert_eq!(dated[0].date.as_deref(), Some("2026-07-30"));
}

#[test]
fn aggregate_errors_orders_by_count_then_code() {
    let rows = vec![
        row("2026-07-30", "en_US", 404, "not-found", 2, 0),
        row("2026-07-30", "en_US", 401, "unauthorized", 9, 0),
        row("2026-07-30", "en_US", 400, "invalid-json", 2, 0),
    ];
    let out = aggregate_errors(&rows, false);
    let codes: Vec<&str> = out.iter().map(|e| e.error_code.as_str()).collect();
    assert_eq!(codes, vec!["unauthorized", "invalid-json", "not-found"]);
}

#[test]
fn aggregate_languages_percentages_use_the_filtered_total() {
    let rows = vec![
        row("2026-07-30", "en_US", 200, "", 800, 0),
        row("2026-07-30", "es", 200, "", 200, 0),
    ];
    let out = aggregate_languages(&rows, false);
    assert_eq!(out.len(), 2);
    assert_eq!(out[0].language, "en_US");
    assert_eq!(out[0].percentage_tenths as f64 / 10.0, 80.0);
    assert_eq!(out[1].percentage_tenths as f64 / 10.0, 20.0);
    let sum: f64 = out.iter().map(|l| l.percentage_tenths as f64 / 10.0).sum();
    assert!((sum - 100.0).abs() < 0.05);
}

#[test]
fn aggregate_languages_rounds_shares_and_splits_dates() {
    let rows = vec![
        row("2026-07-30", "en_US", 200, "", 1, 0),
        row("2026-07-30", "es", 200, "", 2, 0),
        row("2026-07-31", "es", 200, "", 5, 0),
    ];
    let out = aggregate_languages(&rows, true);
    assert_eq!(out.len(), 3);
    assert_eq!(out[0].language, "es");
    assert_eq!(out[0].percentage_tenths, 667);
    assert_eq!(out[1].language, "en_US");
    assert_eq!(out[1].percentage_tenths, 333);
    assert_eq!(out[2].date.as_deref(), Some("2026-07-31"));
    assert_eq!(out[2].percentage_tenths, 1000);
}

#[test]
fn aggregate_latency_merges_buckets_across_days_when_flat() {
    let rows = vec![latency_row("2026-07-30", 10, 50), latency_row("2026-07-31", 10, 50)];
    let flat = aggregate_latency(&rows, false);
    assert_eq!(flat.len(), 3, "p50/p95/p99");
    assert!(flat.iter().all(|t| t.date.is_none()));

    let dated = aggregate_latency(&rows, true);
    assert_eq!(dated.len(), 6, "three percentiles per day");
}

#[test]
fn aggregate_latency_labels_and_skips_empty_days() {
    let rows = vec![latency_row("2026-07-31", 1, 0), latency_row("2026-07-30", 10, 4)];
    let dated = aggregate_latency(&rows, true);
    assert_eq!(dated.len(), 3);
    assert_eq!(dated[0].date.as_deref(), Some("2026-07-30"));
    assert_eq!(dated[0].percentile, "p50");
    assert_eq!(dated[1].percentile, "p95");
    assert_eq!(dated[2].percentile, "p99");
    assert_eq!(dated[0].value_ms, 5);
    assert!(aggregate_latency(&vec![], false).is_empty());
}

#[test]
fn resolve_window_rejects_inverted_partial_and_oversized_ranges() {
    let inverted = UsageQuery {
        start: Some("2026-07-31".to_string()),
        end: Some("2026-07-01".to_string()),
    };
    assert!(resolve_window(&inverted, None).is_err());

    let partial = UsageQuery { start: Some("2026-07-01".to_string()), end: None };
    assert!(resolve_window(&partial, None).is_err());

    let oversized = UsageQuery {
        start: Some("2020-01-01".to_string()),
        end: Some("2026-01-01".to_string()),
    };
    assert!(resolve_window(&oversized, None).is_err());

    let malformed = UsageQuery {
        start: Some("2026-02-30".to_string()),
        end: Some("2026-03-01".to_string()),
    };
    assert!(resolve_window(&malformed, None).is_err());
}

#[test]
fn resolve_window_defaults_to_billing_period_then_falls_back() {
    let empty = UsageQuery { start: None, end: None };

    // Billing period supplied (admin scope).
    let period = Some((19_000 * 86_400u64, 19_030 * 86_400u64));
    let window = resolve_window(&empty, period).unwrap();
    assert_eq!(window.start, format_day(19_000));
    assert_eq!(window.end, format_day(19_030));
    assert!(!window.dated);

    // No period (platform scope, or an un-provisioned tenant) -> 30 days.
    let window = resolve_window(&empty, None).unwrap();
    let today = epoch_day_now();
    assert_eq!(window.end, format_day(today));
    assert_eq!(window.start, format_day(today - DEFAULT_WINDOW_DAYS + 1));
    assert!(!window.dated);
}

#[test]
fn resolve_window_marks_explicit_ranges_as_dated() {
    let query = UsageQuery {
        start: Some("2026-07-01".to_string()),
        end: Some("2026-07-31".to_string()),
    };
    let window = resolve_window(&query, None).unwrap();
    assert_eq!(window.start, "2026-07-01");
    assert_eq!(window.end, "2026-07-31");
    assert!(window.dated);
}

fn date_range_message(r: Result<rustspell_server::usage::Window, AppError>) -> String {
    match r {
        Err(AppError::InvalidDateRange(m)) => m,
        _ => panic!("expected an invalid date range"),
    }
}

#[test]
fn resolve_window_names_the_broken_rule() {
    let q = |s: Option<&str>, e: Option<&str>| UsageQuery {
        start: s.map(|x| x.to_string()),
        end: e.map(|x| x.to_string()),
    };
    let today = 20_000;
    assert_eq!(
        date_range_message(resolve_window_at(&q(Some("2026-02-30"), Some("2026-03-01")), None, today)),
        "invalid start date: 2026-02-30"
    );
    assert_eq!(
        date_range_message(resolve_window_at(&q(Some("2026-03-01"), Some("x")), None, today)),
        "invalid end date: x"
    );
    assert_eq!(
        date_range_message(resolve_window_at(&q(Some("2026-03-02"), Some("2026-03-01")), None, today)),
        "start must not be after end"
    );
    assert_eq!(
        date_range_message(resolve_window_at(&q(Some("2026-01-01"), Some("2026-04-01")), None, today)),
        "range must span fewer than 90 days of retained data"
    );
    assert_eq!(
        date_range_message(resolve_window_at(&q(None, Some("2026-03-01")), None, today)),
        "start and end must be supplied together"
    );
    // 89 days apart is still inside the retention window.
    let w = resolve_window_at(&q(Some("2026-01-01"), Some("2026-03-31")), None, today).unwrap();
    assert!(w.dated);
    let w = resolve_window_at(&q(None, None), None, 20_000).unwrap();
    assert_eq!(w.start, format_day(19_971));
    assert_eq!(w.end, format_day(20_000));
}

#[test]
fn retention_cutoff_is_ninety_days_back() {
    assert_eq!(retention_cutoff_day_at(20_090), format_day(20_000));
}

#[test]
fn percentiles_never_decrease_with_rank() {
    let buckets = vec![(1, 3), (5, 40), (BUCKET_OVERFLOW, 2), (50, 30), (10, 20), (1_000, 5)];
    let p50 = percentile(&buckets, 50).unwrap();
    let p95 = percentile(&buckets, 95).unwrap();
    let p99 = percentile(&buckets, 99).unwrap();
    assert!(p50 <= p95 && p95 <= p99, "{p50} {p95} {p99}");
    assert!(p99 <= 1_000);
}

#[test]
fn daily_rows_count_every_request_once() {
    let rows = vec![
        row("2026-07-31", "es", 200, "", 4, 0),
        row("2026-07-30", "en_US", 200, "", 8, 0),
        row("2026-07-31", "en_US", 422, "validation-error", 1, 0),
        row("2026-07-30", "de", 500, "internal-error", 2, 0),
    ];
    let out = aggregate_daily(&rows);
    let total: u64 = out.iter().map(|r| r.requests).sum();
    assert_eq!(total, 15);
    assert_eq!(out.len(), 2);
}

#[test]
fn aggregation_inputs_are_checked_before_use() {
    assert!(latency_inputs_fit(&vec![latency_row("2026-07-30", 5, 3)], true));
    assert!(!latency_inputs_fit(&vec![latency_row("2026-07-30", 1 << 40, 3)], false));
    let big = vec![latency_row("2026-07-30", 5, i64::MAX), latency_row("2026-07-30", 10, 1)];
    assert!(!latency_inputs_fit(&big, true));
    let split = vec![latency_row("2026-07-30", 5, i64::MAX), latency_row("2026-07-31", 10, 1)];
    assert!(latency_inputs_fit(&split, true));
    assert!(!latency_inputs_fit(&split, false));

    let rows = vec![row("2026-07-30", "en_US", 200, "", i64::MAX, 0), row("2026-07-31", "de", 200, "", 1, 0)];
    assert!(language_inputs_fit(&rows, true));
    assert!(!language_inputs_fit(&rows, false));
    assert!(language_inputs_fit(&vec![], false));
}

#[test]
fn responses_are_recorded_under_their_language_and_slug() {
    assert_eq!(
        usage_labels(Some("de".to_string()), None, 200),
        ("de".to_string(), String::new())
    );
    assert_eq!(
        usage_labels(None, Some("validation-error".to_string()), 400),
        ("unknown".to_string(), "validation-error".to_string())
    );
    assert_eq!(usage_labels(None, None, 500), ("unknown".to_string(), "internal-error".to_string()));
}

#[test]
fn latency_buckets_add_up_across_rows() {
    // Two (10 ms, 50) rows make one (10 ms, 100) bucket: p50 sits halfway.
    let rows = vec![latency_row("2026-07-30", 10, 50), latency_row("2026-07-31", 10, 50)];
    let flat = aggregate_latency(&rows, false);
    assert_eq!(flat[0].percentile, "p50");
    assert_eq!(flat[0].value_ms, 5);
    assert_eq!(flat[0].value_ms, percentile(&vec![(10, 100)], 50).unwrap());
    let dated = aggregate_latency(&rows, true);
    assert_eq!(dated[0].value_ms, percentile(&vec![(10, 50)], 50).unwrap());
}

#[test]
fn latencies_round_up_to_their_bucket() {
    assert_eq!(bucket_for(1_500), 2);
    assert_eq!(bucket_for(1_001), 2);
    assert_eq!(bucket_for(5_000), 5);
    assert_eq!(bucket_for(5_001), 10);
    assert_eq!(bucket_for(1_000_500), BUCKET_OVERFLOW);
    assert_eq!(bucket_for(u64::MAX), BUCKET_OVERFLOW);
}

#[test]
fn day_fields_take_digits_only() {
    for bad in ["2026-+1-01", "2026-01-+1", "2026--1-01", "+026-01-01", "2026- 1-01"] {
        assert!(parse_day(bad).is_none(), "should reject {bad}");
    }
    assert_eq!(parse_day(&format_day(-719_529)), Some(-719_529));
    assert_eq!(format_day(-719_529), "-001-12-31");
}

#[test]
fn day_texts_sort_like_days() {
    let days = [-719_528, -1, 0, 59, 60, 19_000, 20_301, 2_932_896];
    for w in days.windows(2) {
        assert!(format_day(w[0]) < format_day(w[1]), "{} {}", w[0], w[1]);
        assert_eq!(parse_day(&format_day(w[0])), Some(w[0]));
    }
    assert_eq!(format_day(2_932_896), "9999-12-31");
    assert_eq!(format_day(-719_528), "0000-01-01");
}
