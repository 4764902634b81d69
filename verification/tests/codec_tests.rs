use exchange_engine::codec::{parse_cache, render_cache};
use exchange_engine::currency::Currency;
use exchange_engine::date::day_from_ymd;
use exchange_engine::error::ExchangeError;
use exchange_engine::feed::{build_fetch_url, parse_feed};
use exchange_engine::series::{Observation, RateSeries};

fn obs(day: i64, value: &str) -> Observation {
    Observation { day, value: value.to_string() }
}

fn series(rows: Vec<Observation>) -> RateSeries {
    RateSeries::from_rows(rows).unwrap()
}

#[test]
fn renders_the_cache_format_exactly() {
    let d = day_from_ymd(2024, 1, 1);
    let s = series(vec![obs(d, "1.10"), obs(d + 1, "1.2345")]);
    assert_eq!(render_cache(&s), "date,value\n2024-01-01,1.10\n2024-01-02,1.2345\n");
    let empty = series(vec![]);
    assert_eq!(render_cache(&empty), "date,value\n");
}

#[test]
fn cache_round_trip() {
    let d = day_from_ymd(2023, 11, 30);
    let s = series(vec![obs(d, "0.9731"), obs(d + 3, "0.98"), obs(d + 4, "1.0")]);
    let text = render_cache(&s);
    let back = parse_cache(&text).unwrap();
    assert_eq!(back.len(), s.len());
    for i in 0..s.len() {
        assert_eq!(back.day_at(i), s.day_at(i));
        assert_eq!(back.value_at(i), s.value_at(i));
    }
}

#[test]
fn cache_parser_tolerates_a_missing_final_newline() {
    let text = "date,value\n2024-01-01,1.10";
    let s = parse_cache(text).unwrap();
    assert_eq!(s.len(), 1);
    assert_eq!(s.day_at(0), day_from_ymd(2024, 1, 1));
    assert_eq!(s.value_at(0).as_str(), "1.10");
}

#[test]
fn parsers_accept_crlf_line_endings() {
    let s = parse_cache("date,value\r\n2024-01-01,1.10\r\n2024-01-02,1.20\r\n").unwrap();
    assert_eq!(s.len(), 2);
    assert_eq!(s.value_at(1).as_str(), "1.20");
    let rows = parse_feed("TIME_PERIOD,OBS_VALUE\r\n2024-01-02,1.0950\r\n").unwrap();
    assert_eq!(rows, vec![(day_from_ymd(2024, 1, 2), "1.0950".to_string())]);
}

#[test]
fn cache_parser_rejects_malformed_text() {
    for text in [
        "",
        "value,date\n2024-01-01,1.10\n",
        "date,value\n2024-01-01\n",
        "date,value\n2024-01-01,1.10,extra\n",
        "date,value\n2024-13-01,1.10\n",
        "date,value\n01-01-2024,1.10\n",
        "date,value\n2024-01-01,\n",
        // Days out of order break the series' shape.
        "date,value\n2024-01-02,1.10\n2024-01-01,1.20\n",
        "date,value\n2024-01-01,1.10\n2024-01-01,1.20\n",
    ] {
        assert!(matches!(parse_cache(text), Err(ExchangeError::MalformedData)), "{:?}", text);
    }
}

#[test]
fn feed_parser_reads_the_named_columns() {
    let text = "KEY,FREQ,CURRENCY,CURRENCY_DENOM,TIME_PERIOD,OBS_VALUE\n\
                EXR.D.USD.EUR.SP00.A,D,USD,EUR,2024-01-02,1.0950\n\
                EXR.D.USD.EUR.SP00.A,D,USD,EUR,2024-01-03,1.0920\n";
    let rows = parse_feed(text).unwrap();
    assert_eq!(rows.len(), 2);
    assert_eq!(rows[0], (day_from_ymd(2024, 1, 2), "1.0950".to_string()));
    assert_eq!(rows[1], (day_from_ymd(2024, 1, 3), "1.0920".to_string()));
}

#[test]
fn feed_parser_rejects_malformed_answers() {
    for text in [
        "",
        // No value column at all.
        "KEY,TIME_PERIOD\nEXR,2024-01-02\n",
        // No date column at all.
        "KEY,OBS_VALUE\nEXR,1.0950\n",
        // A ragged record.
        "TIME_PERIOD,OBS_VALUE\n2024-01-02\n",
        // An unparsable date.
        "TIME_PERIOD,OBS_VALUE\n02.01.2024,1.0950\n",
        // An empty value.
        "TIME_PERIOD,OBS_VALUE\n2024-01-02,\n",
    ] {
        assert!(matches!(parse_feed(text), Err(ExchangeError::MalformedData)), "{:?}", text);
    }
}

#[test]
fn feed_order_is_kept_even_unsorted() {
    // The feed parser keeps records as sent; shaping into a series is the
    // series' own concern.
    let text = "TIME_PERIOD,OBS_VALUE\n2024-01-03,1.2\n2024-01-02,1.1\n";
    let rows = parse_feed(text).unwrap();
    assert_eq!(rows[0].0, day_from_ymd(2024, 1, 3));
    assert_eq!(rows[1].0, day_from_ymd(2024, 1, 2));
}

#[test]
fn request_addresses_name_the_pair_and_the_start() {
    assert_eq!(
        build_fetch_url(&Currency::USD, None),
        "https://data-api.ecb.europa.eu/service/data/EXR/D.USD.EUR.SP00.A?format=csvdata&detail=dataonly"
    );
    assert_eq!(
        build_fetch_url(&Currency::CHF, Some(day_from_ymd(2024, 1, 5))),
        "https://data-api.ecb.europa.eu/service/data/EXR/D.CHF.EUR.SP00.A?format=csvdata&detail=dataonly&startPeriod=2024-01-05"
    );
}
