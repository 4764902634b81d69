use exchange_engine::date::day_from_ymd;
use exchange_engine::error::ExchangeError;
use exchange_engine::series::{load_plan, Extremum, FetchPlan, LoadPlan, Observation, RateSeries};

fn obs(day: i64, value: &str) -> Observation {
    Observation { day, value: value.to_string() }
}

fn series(rows: Vec<Observation>) -> RateSeries {
    RateSeries::from_rows(rows).unwrap()
}

fn days(s: &RateSeries) -> Vec<i64> {
    (0..s.len()).map(|i| s.day_at(i)).collect()
}

fn values(s: &RateSeries) -> Vec<String> {
    (0..s.len()).map(|i| s.value_at(i).clone()).collect()
}

#[test]
fn from_rows_rejects_bad_shapes() {
    let d = day_from_ymd(2024, 1, 1);
    assert!(matches!(
        RateSeries::from_rows(vec![obs(d, "1.1"), obs(d, "1.2")]),
        Err(ExchangeError::MalformedData)
    ));
    assert!(matches!(
        RateSeries::from_rows(vec![obs(d + 1, "1.1"), obs(d, "1.2")]),
        Err(ExchangeError::MalformedData)
    ));
    assert!(matches!(
        RateSeries::from_rows(vec![obs(0, "1.1")]),
        Err(ExchangeError::MalformedData)
    ));
    assert!(RateSeries::from_rows(vec![]).is_ok());
}

#[test]
fn extreme_date_reports_span_and_empty() {
    let d = day_from_ymd(2024, 3, 10);
    let s = series(vec![obs(d, "1.0"), obs(d + 4, "1.1"), obs(d + 9, "1.2")]);
    assert_eq!(s.extreme_date(&Extremum::MIN), Ok(d));
    assert_eq!(s.extreme_date(&Extremum::MAX), Ok(d + 9));
    let empty = series(vec![]);
    assert_eq!(empty.extreme_date(&Extremum::MIN), Err(ExchangeError::EmptyColumn));
    assert_eq!(empty.extreme_date(&Extremum::MAX), Err(ExchangeError::EmptyColumn));
}

#[test]
fn forward_fill_carries_the_last_value() {
    // Observations only at days 1 and 5 of the month.
    let d1 = day_from_ymd(2024, 1, 1);
    let d5 = day_from_ymd(2024, 1, 5);
    let s = series(vec![obs(d1, "1.10"), obs(d5, "1.20")]);
    let e = s.expand(false, 1).unwrap();
    assert_eq!(days(&e), vec![d1, d1 + 1, d1 + 2, d1 + 3, d5]);
    assert_eq!(values(&e), vec!["1.10", "1.10", "1.10", "1.10", "1.20"]);
}

#[test]
fn expansion_covers_every_day_exactly_once() {
    let d = day_from_ymd(2023, 12, 28);
    let s = series(vec![obs(d, "0.9"), obs(d + 3, "0.8"), obs(d + 7, "0.7")]);
    let e = s.expand(false, 1).unwrap();
    let lo = e.day_at(0);
    let hi = e.day_at(e.len() - 1);
    assert_eq!((lo, hi), (d, d + 7));
    for day in lo..=hi {
        let hits = (0..e.len()).filter(|&i| e.day_at(i) == day).count();
        assert_eq!(hits, 1);
    }
}

#[test]
fn expand_is_idempotent() {
    let d = day_from_ymd(2024, 2, 27);
    let s = series(vec![obs(d, "1.10"), obs(d + 4, "1.20"), obs(d + 6, "1.15")]);
    let once = s.expand(false, 1).unwrap();
    let twice = once.expand(false, 1).unwrap();
    assert_eq!(days(&once), days(&twice));
    assert_eq!(values(&once), values(&twice));
}

#[test]
fn expand_twice_on_the_same_day_changes_nothing() {
    let d = day_from_ymd(2024, 2, 27);
    let today = d + 8;
    let s = series(vec![obs(d, "1.10"), obs(d + 4, "1.20")]);
    let once = s.expand(true, today).unwrap();
    let twice = once.expand(true, today).unwrap();
    assert_eq!(days(&once), days(&twice));
    assert_eq!(values(&once), values(&twice));
}

#[test]
fn expand_appends_a_row_for_today() {
    let d = day_from_ymd(2024, 1, 1);
    let today = d + 6;
    let s = series(vec![obs(d, "1.10"), obs(d + 2, "1.20")]);
    let e = s.expand(true, today).unwrap();
    assert_eq!(e.len(), 7);
    assert_eq!(e.day_at(e.len() - 1), today);
    assert_eq!(e.value_at(e.len() - 1).as_str(), "1.20");
    // A series already reaching today is unchanged by the request.
    let current = series(vec![obs(today, "1.30")]);
    let e2 = current.expand(true, today).unwrap();
    assert_eq!(e2.len(), 1);
    assert_eq!(e2.day_at(0), today);
}

#[test]
fn expand_rejects_an_empty_series() {
    let empty = series(vec![]);
    assert!(matches!(empty.expand(false, 1), Err(ExchangeError::EmptySeries)));
    assert!(matches!(empty.expand_now(true).1, Err(ExchangeError::EmptySeries)));
}

#[test]
fn merge_keeps_only_rows_after_the_cached_span() {
    let d = day_from_ymd(2024, 1, 1);
    let cached = series(vec![obs(d, "1.0"), obs(d + 1, "1.1"), obs(d + 2, "1.2")]);
    // The feed re-includes the cached maximum day itself.
    let fresh = series(vec![obs(d + 2, "9.9"), obs(d + 3, "1.3"), obs(d + 4, "1.4")]);
    let merged = cached.merge(&fresh);
    assert_eq!(days(&merged), vec![d, d + 1, d + 2, d + 3, d + 4]);
    assert_eq!(values(&merged), vec!["1.0", "1.1", "1.2", "1.3", "1.4"]);
}

#[test]
fn merge_into_an_empty_cache_takes_everything() {
    let d = day_from_ymd(2024, 1, 1);
    let cached = series(vec![]);
    let fresh = series(vec![obs(d, "1.0"), obs(d + 2, "1.1")]);
    let merged = cached.merge(&fresh);
    assert_eq!(days(&merged), vec![d, d + 2]);
}

#[test]
fn refresh_fetches_exactly_when_stale() {
    let d = day_from_ymd(2024, 5, 1);
    let s = series(vec![obs(d, "1.0"), obs(d + 3, "1.1")]);
    // Stale: the cached maximum lies strictly before today.
    assert_eq!(s.refresh_plan(d + 4), Ok(FetchPlan::FetchFrom(d + 3)));
    assert_eq!(s.refresh_plan(d + 100), Ok(FetchPlan::FetchFrom(d + 3)));
    // Current or ahead: no request.
    assert_eq!(s.refresh_plan(d + 3), Ok(FetchPlan::UpToDate));
    assert_eq!(s.refresh_plan(d), Ok(FetchPlan::UpToDate));
    let empty = series(vec![]);
    assert_eq!(empty.refresh_plan(d), Err(ExchangeError::EmptyColumn));
}

#[test]
fn clock_driven_refresh_agrees_with_the_rule() {
    // A series ending far in the past must be stale against the real clock.
    let d = day_from_ymd(2020, 1, 2);
    let s = series(vec![obs(d, "1.0")]);
    let (today, plan) = s.refresh_plan_now();
    assert!(today > d);
    assert_eq!(plan, Ok(FetchPlan::FetchFrom(d)));
    // Its clock-driven expansion reaches exactly the day the call reports,
    // with the carried value.
    let (again, e) = s.expand_now(true);
    let e = e.unwrap();
    assert!(again > d);
    assert_eq!(e.day_at(e.len() - 1), again);
    assert_eq!(e.value_at(e.len() - 1).as_str(), "1.0");
}

#[test]
fn load_plan_decides_the_load_outcome() {
    let d = day_from_ymd(2024, 5, 1);
    let today = d + 5;
    // No usable cache: full history.
    assert_eq!(load_plan(None, today), LoadPlan::FetchFull);
    let empty = series(vec![]);
    assert_eq!(load_plan(Some(&empty), today), LoadPlan::FetchFull);
    // A stale cache: refresh from its own maximum day.
    let stale = series(vec![obs(d, "1.0"), obs(d + 2, "1.1")]);
    assert_eq!(load_plan(Some(&stale), today), LoadPlan::FetchFrom(d + 2));
    // A current cache: no request at all.
    let current = series(vec![obs(d, "1.0"), obs(today, "1.1")]);
    assert_eq!(load_plan(Some(&current), today), LoadPlan::UseCached);
    assert_eq!(load_plan(Some(&current), d), LoadPlan::UseCached);
}
