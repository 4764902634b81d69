use exchange_engine::currency::Currency;
use exchange_engine::date::day_from_ymd;
use exchange_engine::engine::{CurrencyExchange, LedgerRow, Quote};
use exchange_engine::error::ExchangeError;
use exchange_engine::series::{Observation, RateSeries};

fn obs(day: i64, value: &str) -> Observation {
    Observation { day, value: value.to_string() }
}

fn series(rows: Vec<Observation>) -> RateSeries {
    RateSeries::from_rows(rows).unwrap()
}

fn num(t: &str) -> f64 {
    t.parse().unwrap()
}

/// The rate a quote denotes, with the same operations in the same order as
/// the engine's own composition of direct, inverse and cross lookups.
fn eval(q: &Quote) -> f64 {
    match q {
        Quote::One => 1.0,
        Quote::Direct(t) => num(t),
        Quote::Inverse(t) => 1.0 / num(t),
        Quote::Cross(f, t) => num(f) * (1.0 / num(t)),
    }
}

/// An engine holding USD at 0.90 EUR and GBP such that EUR -> GBP is 0.85,
/// over the first ten days of a month.
fn sample_engine() -> (CurrencyExchange, i64) {
    let d = day_from_ymd(2024, 6, 1);
    let usd = series(vec![obs(d, "0.90"), obs(d + 9, "0.92")]);
    let gbp_stored = format!("{}", 1.0 / 0.85);
    let gbp = series(vec![obs(d, &gbp_stored), obs(d + 9, "1.19")]);
    let engine =
        CurrencyExchange::new(vec![(Currency::USD, usd), (Currency::GBP, gbp)], d + 9).unwrap();
    (engine, d)
}

#[test]
fn same_currency_is_always_one() {
    let (engine, d) = sample_engine();
    for c in Currency::all() {
        let q = engine.exchange_currency(&c, &c, d).unwrap();
        assert!(matches!(q, Quote::One));
        assert_eq!(eval(&q), 1.0);
    }
    // No cached series is needed: an engine with no entries answers too,
    // on any date whatsoever.
    let bare = CurrencyExchange::new(vec![], 1).unwrap();
    let q = bare.exchange_currency(&Currency::CHF, &Currency::CHF, 999_999).unwrap();
    assert_eq!(eval(&q), 1.0);
}

#[test]
fn direct_lookup_reads_the_stored_rate() {
    let (engine, d) = sample_engine();
    let q = engine.exchange_currency(&Currency::USD, &Currency::EUR, d).unwrap();
    assert_eq!(eval(&q), 0.90);
    let q9 = engine.exchange_currency(&Currency::USD, &Currency::EUR, d + 9).unwrap();
    assert_eq!(eval(&q9), 0.92);
    // Gap days carry the last known rate forward.
    let q4 = engine.exchange_currency(&Currency::USD, &Currency::EUR, d + 4).unwrap();
    assert_eq!(eval(&q4), 0.90);
}

#[test]
fn inverse_lookup_is_the_reciprocal() {
    let (engine, d) = sample_engine();
    let there = engine.exchange_currency(&Currency::USD, &Currency::EUR, d).unwrap();
    let back = engine.exchange_currency(&Currency::EUR, &Currency::USD, d).unwrap();
    let r = eval(&there);
    assert_eq!(eval(&back), 1.0 / r);
}

#[test]
fn triangulation_composes_the_two_legs() {
    let (engine, d) = sample_engine();
    let usd_eur = eval(&engine.exchange_currency(&Currency::USD, &Currency::EUR, d).unwrap());
    let eur_gbp = eval(&engine.exchange_currency(&Currency::EUR, &Currency::GBP, d).unwrap());
    let usd_gbp = eval(&engine.exchange_currency(&Currency::USD, &Currency::GBP, d).unwrap());
    assert_eq!(usd_eur, 0.90);
    assert_eq!(eur_gbp, 0.85);
    assert_eq!(usd_gbp, usd_eur * eur_gbp);
    assert!((usd_gbp - 0.765).abs() < 1e-12);
}

#[test]
fn out_of_range_dates_are_rejected() {
    let (engine, d) = sample_engine();
    for (from, to) in [
        (Currency::USD, Currency::EUR),
        (Currency::EUR, Currency::USD),
        (Currency::USD, Currency::GBP),
    ] {
        assert!(matches!(
            engine.exchange_currency(&from, &to, d - 1),
            Err(ExchangeError::DateOutOfRange)
        ));
        assert!(matches!(
            engine.exchange_currency(&from, &to, d + 10),
            Err(ExchangeError::DateOutOfRange)
        ));
    }
}

#[test]
fn missing_series_is_a_typed_error() {
    let (engine, d) = sample_engine();
    assert!(matches!(
        engine.exchange_currency(&Currency::CHF, &Currency::EUR, d),
        Err(ExchangeError::SeriesNotFound)
    ));
    assert!(matches!(
        engine.exchange_currency(&Currency::EUR, &Currency::CHF, d),
        Err(ExchangeError::SeriesNotFound)
    ));
    assert!(matches!(
        engine.exchange_currency(&Currency::USD, &Currency::CHF, d),
        Err(ExchangeError::SeriesNotFound)
    ));
}

#[test]
fn new_rejects_bad_pair_sets() {
    let d = day_from_ymd(2024, 6, 1);
    let mk = || series(vec![obs(d, "1.0")]);
    assert_eq!(
        CurrencyExchange::new(vec![(Currency::EUR, mk())], d).unwrap_err(),
        ExchangeError::MalformedData
    );
    assert_eq!(
        CurrencyExchange::new(vec![(Currency::USD, mk()), (Currency::USD, mk())], d).unwrap_err(),
        ExchangeError::MalformedData
    );
    assert_eq!(
        CurrencyExchange::new(vec![(Currency::USD, series(vec![]))], d).unwrap_err(),
        ExchangeError::EmptySeries
    );
}

#[test]
fn clock_driven_construction_matches_new() {
    let d = day_from_ymd(2024, 6, 1);
    let usd = series(vec![obs(d, "0.90")]);
    let (today, built) = CurrencyExchange::new_now(vec![(Currency::USD, usd)]);
    // The real clock reports a supported day well past the sample data, so
    // construction succeeds and the expansion reaches that day.
    assert!(today > d);
    let engine = built.unwrap();
    assert_eq!(engine.entry_count(), 1);
    let expanded = engine.expanded_at(0);
    assert_eq!(expanded.day_at(expanded.len() - 1), today);
    // A bad pair set fails under the clock exactly as under `new`.
    let dup = vec![
        (Currency::USD, series(vec![obs(d, "1.0")])),
        (Currency::USD, series(vec![obs(d, "1.0")])),
    ];
    let (_t, r) = CurrencyExchange::new_now(dup);
    assert_eq!(r.unwrap_err(), ExchangeError::MalformedData);
}

#[test]
fn three_row_table_converts_row_by_row() {
    let (engine, d) = sample_engine();
    let rows = vec![
        LedgerRow { day: d, code: "USD".to_string(), value: "10.5".to_string() },
        LedgerRow { day: d + 4, code: "GBP".to_string(), value: "20".to_string() },
        LedgerRow { day: d + 1, code: "EUR".to_string(), value: "5.25".to_string() },
    ];
    let out = engine.exchange_currencies(&Currency::EUR, &rows).unwrap();
    assert_eq!(out.len(), 3);
    for (row, conv) in rows.iter().zip(out.iter()) {
        assert_eq!(conv.day, row.day);
        assert_eq!(conv.value, row.value);
        let direct =
            eval(&engine.exchange_currency(&currency_of(&row.code), &Currency::EUR, row.day).unwrap());
        let converted = num(&conv.value) * eval(&conv.quote);
        assert_eq!(converted, num(&row.value) * direct);
    }
    // The first row's amount, concretely.
    assert_eq!(num(&out[0].value) * eval(&out[0].quote), 10.5 * 0.90);
}

fn currency_of(code: &str) -> Currency {
    Currency::from_code(&code.to_string()).unwrap()
}

#[test]
fn table_conversion_fails_as_a_whole() {
    let (engine, d) = sample_engine();
    let bad_code = vec![
        LedgerRow { day: d, code: "USD".to_string(), value: "1".to_string() },
        LedgerRow { day: d, code: "XXX".to_string(), value: "1".to_string() },
    ];
    assert!(matches!(
        engine.exchange_currencies(&Currency::EUR, &bad_code),
        Err(ExchangeError::UnknownCurrency)
    ));
    let bad_date = vec![LedgerRow { day: d - 3, code: "USD".to_string(), value: "1".to_string() }];
    assert!(matches!(
        engine.exchange_currencies(&Currency::EUR, &bad_date),
        Err(ExchangeError::DateOutOfRange)
    ));
}

#[test]
fn keys_and_cache_paths_are_code_concatenations() {
    assert_eq!(CurrencyExchange::key(&Currency::USD, &Currency::EUR), "USDEUR");
    assert_eq!(
        CurrencyExchange::cache_file_name(&Currency::GBP),
        "data/exchange_rate_GBPEUR.csv"
    );
}

#[test]
fn engine_exposes_its_entries_for_persistence() {
    let (engine, d) = sample_engine();
    assert_eq!(engine.entry_count(), 2);
    assert_eq!(engine.currency_at(0), Currency::USD);
    assert_eq!(engine.currency_at(1), Currency::GBP);
    // The raw series is kept un-expanded; the expanded one is gap-free.
    assert_eq!(engine.raw_at(0).len(), 2);
    assert_eq!(engine.expanded_at(0).len(), 10);
    assert_eq!(engine.raw_at(0).day_at(0), d);
}

#[test]
fn currency_codes_round_trip() {
    for c in Currency::all() {
        assert_eq!(Currency::from_code(&c.code().to_string()), Some(c));
    }
    assert_eq!(Currency::from_code(&"xxx".to_string()), None);
    assert_eq!(Currency::from_code(&"eur".to_string()), None);
    assert_eq!(Currency::non_base(), vec![Currency::USD, Currency::GBP, Currency::CHF]);
    assert_eq!(
        ExchangeError::SeriesNotFound.text(),
        "no rate series is loaded for the currency"
    );
}
