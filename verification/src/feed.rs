//! The remote reference-rate feed, as data.
//!
//! The feed serves one currency's daily rate against the base currency over
//! a date range, as separator-split text whose header names its columns;
//! only `TIME_PERIOD` (the date) and `OBS_VALUE` (the rate) are read. The
//! feed reports the rate in units of the foreign currency per one unit of
//! the base — the opposite of what the engine stores — so the caller
//! inverts every value before building a series. The transport itself (the
//! request, the waiting, the failure handling) stays outside; here are the
//! request's address and the answer's meaning.

use crate::codec::first_match;
use crate::codec::find_field;
use crate::codec::lines_of;
use crate::codec::split_lines;
use crate::codec::split_on;
use crate::codec::split_text;
use crate::codec::string_seq_model;
use crate::currency::Currency;
use crate::currency::BASE_CURRENCY;
use crate::date::date_chars_of_day;
use crate::date::is_supported_day;
use crate::date::format_date;
use crate::date::parse_date;
use crate::date::parse_date_spec;
use crate::error::ExchangeError;
use vstd::prelude::*;
use vstd::string::StrSliceExecFns;
use vstd::string::StringExecFns;

verus! {

/// The address of the feed's daily-rate query for one currency against the
/// base, optionally restricted to start at a day.
pub open spec fn fetch_url_spec(c: Currency, from_day: Option<int>) -> Seq<char> {
    "https://data-api.ecb.europa.eu/service/data/EXR/D."@ + c.code_spec() + "."@
        + BASE_CURRENCY.code_spec() + ".SP00.A?format=csvdata&detail=dataonly"@ + match from_day {
        Option::None => Seq::<char>::empty(),
        Option::Some(d) => "&startPeriod="@ + date_chars_of_day(d),
    }
}

/// Builds the feed request address.
pub fn build_fetch_url(currency: &Currency, from_day: Option<i64>) -> (r: String)
    requires
        from_day matches Some(d) ==> is_supported_day(d as int),
    ensures
        r@ == fetch_url_spec(*currency, match from_day {
            Option::None => Option::<int>::None,
            Option::Some(d) => Option::Some(d as int),
        }),
{
    let mut s = String::from_str("https://data-api.ecb.europa.eu/service/data/EXR/D.");
    s.append(currency.code());
    s.append(".");
    s.append(BASE_CURRENCY.code());
    s.append(".SP00.A?format=csvdata&detail=dataonly");
    match from_day {
        Option::None => {},
        Option::Some(d) => {
            s.append("&startPeriod=");
            let date = format_date(d);
            s.append(date.as_str());
        },
    }
    s
}

/// What one feed line denotes, given the column count and the positions of
/// the date and value columns: a full record whose date parses and whose
/// value text is nonempty.
pub open spec fn feed_row_of_line(
    line: Seq<char>,
    ncols: int,
    ti: int,
    vi: int,
) -> Option<(int, Seq<char>)> {
    let f = split_on(line, ',');
    if f.len() == ncols && parse_date_spec(f[ti]) is Some && f[vi].len() > 0 {
        Some((parse_date_spec(f[ti])->Some_0, f[vi]))
    } else {
        None
    }
}

/// What a run of feed lines denotes: every line a record, in order.
pub open spec fn feed_rows_of(
    data: Seq<Seq<char>>,
    ncols: int,
    ti: int,
    vi: int,
) -> Option<Seq<(int, Seq<char>)>>
    decreases data.len(),
{
    if data.len() == 0 {
        Some(Seq::empty())
    } else {
        match feed_rows_of(data.drop_last(), ncols, ti, vi) {
            None => None,
            Some(rs) => match feed_row_of_line(data.last(), ncols, ti, vi) {
                None => None,
                Some(r) => Some(rs.push(r)),
            },
        }
    }
}

/// What a feed answer denotes: a header naming a `TIME_PERIOD` and an
/// `OBS_VALUE` column, then one dated value per line, still in the feed's
/// own unit (foreign per base). `None` exactly when the text does not
/// follow that shape.
pub open spec fn feed_parse_spec(s: Seq<char>) -> Option<Seq<(int, Seq<char>)>> {
    let lines = lines_of(s);
    if lines.len() == 0 {
        None
    } else {
        let hdr = split_on(lines[0], ',');
        let ti = first_match(hdr, "TIME_PERIOD"@, 0);
        let vi = first_match(hdr, "OBS_VALUE"@, 0);
        if ti is None || vi is None {
            None
        } else {
            feed_rows_of(
                lines.subrange(1, lines.len() as int),
                hdr.len() as int,
                ti->Some_0,
                vi->Some_0,
            )
        }
    }
}

/// The model of a run of dated texts.
pub open spec fn dated_text_model(v: Seq<(i64, String)>) -> Seq<(int, Seq<char>)> {
    v.map_values(|p: (i64, String)| (p.0 as int, p.1@))
}

/// Once a feed line has failed to parse, the whole run fails.
proof fn lemma_feed_rows_none_extends(data: Seq<Seq<char>>, ncols: int, ti: int, vi: int, j: int)
    requires
        0 <= j <= data.len(),
        feed_rows_of(data.take(j), ncols, ti, vi) is None,
    ensures
        feed_rows_of(data, ncols, ti, vi) is None,
    decreases data.len() - j,
{
    if j == data.len() {
        assert(data.take(j) =~= data);
    } else {
        assert(data.take(j + 1).drop_last() =~= data.take(j));
        lemma_feed_rows_none_extends(data, ncols, ti, vi, j + 1);
    }
}

/// A found field lies inside the run searched.
proof fn lemma_first_match_in_range(v: Seq<Seq<char>>, name: Seq<char>, i: int, t: int)
    requires
        first_match(v, name, i) == Some(t),
    ensures
        0 <= i <= t < v.len(),
        v[t] == name,
    decreases v.len() - i,
{
    if i < v.len() && v[i] != name {
        lemma_first_match_in_range(v, name, i + 1, t);
    }
}

/// Reads a feed answer into dated rate texts, still in the feed's own unit
/// (foreign per base; the caller inverts them). `Err` exactly when the
/// text does not follow the feed's shape.
pub fn parse_feed(s: &str) -> (r: Result<Vec<(i64, String)>, ExchangeError>)
    ensures
        r matches Ok(v) ==> feed_parse_spec(s@) == Some(dated_text_model(v@)),
        r is Err <==> feed_parse_spec(s@) is None,
        r is Err ==> r == Err::<Vec<(i64, String)>, ExchangeError>(ExchangeError::MalformedData),
{
    let lines = split_lines(s);
    let ghost lm = string_seq_model(lines@);
    if lines.len() == 0 {
        return Err(ExchangeError::MalformedData);
    }
    let hdr = split_text(lines[0].as_str(), ',');
    let ghost hm = string_seq_model(hdr@);
    let ti = match find_field(&hdr, &String::from_str("TIME_PERIOD")) {
        Some(t) => t,
        None => {
            return Err(ExchangeError::MalformedData);
        },
    };
    let vi = match find_field(&hdr, &String::from_str("OBS_VALUE")) {
        Some(t) => t,
        None => {
            return Err(ExchangeError::MalformedData);
        },
    };
    proof {
        lemma_first_match_in_range(hm, "TIME_PERIOD"@, 0, ti as int);
        lemma_first_match_in_range(hm, "OBS_VALUE"@, 0, vi as int);
    }
    let ncols = hdr.len();
    let ghost data = lm.subrange(1, lm.len() as int);
    let mut rows: Vec<(i64, String)> = Vec::new();
    let mut i: usize = 1;
    proof {
        assert(data.take(0) =~= Seq::<Seq<char>>::empty());
        assert(dated_text_model(rows@) =~= Seq::<(int, Seq<char>)>::empty());
    }
    while i < lines.len()
        invariant
            1 <= i <= lines@.len(),
            lm == string_seq_model(lines@),
            lm.len() == lines@.len(),
            lm.len() >= 1,
            data == lm.subrange(1, lm.len() as int),
            hm == split_on(lm[0], ','),
            ncols == hm.len(),
            ti < ncols,
            vi < ncols,
            feed_parse_spec(s@) == feed_rows_of(data, ncols as int, ti as int, vi as int),
            feed_rows_of(data.take(i - 1), ncols as int, ti as int, vi as int) == Some(
                dated_text_model(rows@),
            ),
        decreases lines.len() - i,
    {
        let ghost done = dated_text_model(rows@);
        proof {
            assert(data.take(i as int).drop_last() =~= data.take(i - 1));
            assert(data.take(i as int).last() == data[i - 1]);
            assert(data[i - 1] == lm[i as int]);
        }
        let fields = split_text(lines[i].as_str(), ',');
        let ghost fm = string_seq_model(fields@);
        if fields.len() != ncols {
            proof {
                assert(feed_row_of_line(data[i - 1], ncols as int, ti as int, vi as int)
                    is None);
                lemma_feed_rows_none_extends(data, ncols as int, ti as int, vi as int, i as int);
            }
            return Err(ExchangeError::MalformedData);
        }
        let day = match parse_date(fields[ti].as_str()) {
            Some(d) => d,
            None => {
                proof {
                    assert(feed_row_of_line(data[i - 1], ncols as int, ti as int, vi as int)
                        is None);
                    lemma_feed_rows_none_extends(
                        data,
                        ncols as int,
                        ti as int,
                        vi as int,
                        i as int,
                    );
                }
                return Err(ExchangeError::MalformedData);
            },
        };
        if fields[vi].as_str().unicode_len() == 0 {
            proof {
                assert(feed_row_of_line(data[i - 1], ncols as int, ti as int, vi as int)
                    is None);
                lemma_feed_rows_none_extends(data, ncols as int, ti as int, vi as int, i as int);
            }
            return Err(ExchangeError::MalformedData);
        }
        let value = fields[vi].clone();
        rows.push((day, value));
        proof {
            assert(dated_text_model(rows@) =~= done.push((day as int, fm[vi as int])));
            assert(feed_row_of_line(data[i - 1], ncols as int, ti as int, vi as int) == Some(
                (day as int, fm[vi as int]),
            ));
            assert(feed_rows_of(data.take(i as int), ncols as int, ti as int, vi as int) == Some(
                dated_text_model(rows@),
            ));
        }
        i = i + 1;
    }
    proof {
        assert(data.take(i - 1) =~= data);
    }
    Ok(rows)
}

} // verus!
