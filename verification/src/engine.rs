//! The exchange engine: lookup and conversion over expanded rate series.
//!
//! The engine owns, for every non-base currency, the raw cached series and
//! its daily expansion. A rate query never interprets the stored decimal
//! texts; it answers with a [`Quote`] that names the texts involved and the
//! arithmetic the caller is to apply. The closed case analysis — equal
//! currencies, direct pair, inverse pair, triangulation through the base —
//! replaces open-ended recursion, so termination and the one-hop bound are
//! structural facts.

use crate::currency::BASE_CURRENCY;
use crate::currency::Currency;
use crate::date::is_supported_day;
use crate::date::today_from_clock;
use crate::error::ExchangeError;
use crate::series::expand_hi;
use crate::series::is_expansion_of;
use crate::series::max_day;
use crate::series::min_day;
use crate::series::wf_model;
use crate::series::RateSeries;
use vstd::prelude::*;
use vstd::string::StringExecFns;

verus! {

/// How a rate is to be computed from stored texts. With `v` the number a
/// text denotes: `One` is the rate 1; `Direct(t)` the rate `v(t)`;
/// `Inverse(t)` the rate `1 / v(t)`; `Cross(f, t)` the rate
/// `v(f) * (1 / v(t))`, the triangulation of two base-currency rates.
#[derive(Debug)]
pub enum Quote {
    One,
    Direct(String),
    Inverse(String),
    Cross(String, String),
}

/// The mathematical form of a [`Quote`].
pub ghost enum QuoteModel {
    One,
    Direct(Seq<char>),
    Inverse(Seq<char>),
    Cross(Seq<char>, Seq<char>),
}

impl View for Quote {
    type V = QuoteModel;

    open spec fn view(&self) -> QuoteModel {
        match self {
            Quote::One => QuoteModel::One,
            Quote::Direct(t) => QuoteModel::Direct(t@),
            Quote::Inverse(t) => QuoteModel::Inverse(t@),
            Quote::Cross(f, t) => QuoteModel::Cross(f@, t@),
        }
    }
}

/// The reciprocal of a quote: what the opposite query direction answers.
pub open spec fn recip_quote(q: QuoteModel) -> QuoteModel {
    match q {
        QuoteModel::One => QuoteModel::One,
        QuoteModel::Direct(t) => QuoteModel::Inverse(t),
        QuoteModel::Inverse(t) => QuoteModel::Direct(t),
        QuoteModel::Cross(f, t) => QuoteModel::Cross(t, f),
    }
}

/// One ledger row handed in for bulk conversion: a date, the currency code
/// the amount is in, and the amount's decimal text.
#[derive(Debug)]
pub struct LedgerRow {
    pub day: i64,
    pub code: String,
    pub value: String,
}

impl View for LedgerRow {
    type V = (int, Seq<char>, Seq<char>);

    open spec fn view(&self) -> (int, Seq<char>, Seq<char>) {
        (self.day as int, self.code@, self.value@)
    }
}

/// One converted row: the date and amount text of the input row (the
/// currency column is dropped) together with the quote to apply to it.
#[derive(Debug)]
pub struct ConvertedRow {
    pub day: i64,
    pub value: String,
    pub quote: Quote,
}

impl View for ConvertedRow {
    type V = (int, Seq<char>, QuoteModel);

    open spec fn view(&self) -> (int, Seq<char>, QuoteModel) {
        (self.day as int, self.value@, self.quote@)
    }
}

/// What the engine stores for one non-base currency.
#[derive(Debug)]
struct Entry {
    currency: Currency,
    raw: RateSeries,
    expanded: RateSeries,
}

/// The model of one entry: the currency, the raw series, the expansion.
pub type EntryModel = (Currency, Seq<(int, Seq<char>)>, Seq<(int, Seq<char>)>);

spec fn entries_model(v: Seq<Entry>) -> Seq<EntryModel> {
    v.map_values(|e: Entry| (e.currency, e.raw@, e.expanded@))
}

/// A gap-free series: nonempty, one row per consecutive calendar day.
pub open spec fn gap_free(e: Seq<(int, Seq<char>)>) -> bool {
    e.len() > 0 && forall|k: int| 0 <= k < e.len() ==> (#[trigger] e[k]).0 == e[0].0 + k
}

/// Engine well-formedness: one entry per currency, none for the base, every
/// raw series nonempty and ordered, every expansion gap-free and ordered.
pub open spec fn engine_wf(m: Seq<EntryModel>) -> bool {
    &&& forall|i: int, j: int| 0 <= i < j < m.len() ==> (#[trigger] m[i]).0 != (#[trigger] m[j]).0
    &&& forall|i: int| 0 <= i < m.len() ==> (#[trigger] m[i]).0 != BASE_CURRENCY
    &&& forall|i: int| 0 <= i < m.len() ==> wf_model((#[trigger] m[i]).1) && m[i].1.len() > 0
    &&& forall|i: int| 0 <= i < m.len() ==> wf_model((#[trigger] m[i]).2) && gap_free(m[i].2)
}

/// Whether a series is stored for `c` (always against the base currency).
pub open spec fn has_series(m: Seq<EntryModel>, c: Currency) -> bool {
    exists|i: int| 0 <= i < m.len() && (#[trigger] m[i]).0 == c
}

/// The entry stored for `c`; meaningful when `has_series(m, c)`.
pub open spec fn entry_of(m: Seq<EntryModel>, c: Currency) -> EntryModel {
    m[choose|i: int| 0 <= i < m.len() && (#[trigger] m[i]).0 == c]
}

/// The expanded series stored for `c`.
pub open spec fn series_of(m: Seq<EntryModel>, c: Currency) -> Seq<(int, Seq<char>)> {
    entry_of(m, c).2
}

/// Whether `day` lies inside the cached span of the series.
pub open spec fn in_range(e: Seq<(int, Seq<char>)>, day: int) -> bool {
    min_day(e) <= day <= max_day(e)
}

/// The value a gap-free series holds at `day`.
pub open spec fn series_value(e: Seq<(int, Seq<char>)>, day: int) -> Seq<char> {
    e[day - min_day(e)].1
}

/// The whole rate lookup, as a closed case analysis. Equal currencies
/// answer 1 with no series and no date check. A query into the base
/// currency reads the stored series of the other; out of the base currency,
/// its inverse; between two foreign currencies, the triangulation of the
/// two, checked and read in that order. A missing series and an
/// out-of-range date are typed errors.
pub open spec fn rate_quote_spec(
    m: Seq<EntryModel>,
    from: Currency,
    to: Currency,
    day: int,
) -> Result<QuoteModel, ExchangeError> {
    if from == to {
        Ok(QuoteModel::One)
    } else if to == BASE_CURRENCY {
        if !has_series(m, from) {
            Err(ExchangeError::SeriesNotFound)
        } else if !in_range(series_of(m, from), day) {
            Err(ExchangeError::DateOutOfRange)
        } else {
            Ok(QuoteModel::Direct(series_value(series_of(m, from), day)))
        }
    } else if from == BASE_CURRENCY {
        if !has_series(m, to) {
            Err(ExchangeError::SeriesNotFound)
        } else if !in_range(series_of(m, to), day) {
            Err(ExchangeError::DateOutOfRange)
        } else {
            Ok(QuoteModel::Inverse(series_value(series_of(m, to), day)))
        }
    } else {
        if !has_series(m, from) {
            Err(ExchangeError::SeriesNotFound)
        } else if !in_range(series_of(m, from), day) {
            Err(ExchangeError::DateOutOfRange)
        } else if !has_series(m, to) {
            Err(ExchangeError::SeriesNotFound)
        } else if !in_range(series_of(m, to), day) {
            Err(ExchangeError::DateOutOfRange)
        } else {
            Ok(QuoteModel::Cross(
                series_value(series_of(m, from), day),
                series_value(series_of(m, to), day),
            ))
        }
    }
}

/// What one ledger row converts to: its currency code parsed, the rate
/// looked up at its date, the amount text carried over.
pub open spec fn convert_row_spec(
    m: Seq<EntryModel>,
    to: Currency,
    row: (int, Seq<char>, Seq<char>),
) -> Result<(int, Seq<char>, QuoteModel), ExchangeError> {
    match Currency::from_code_spec(row.1) {
        Option::None => Err(ExchangeError::UnknownCurrency),
        Option::Some(c) => match rate_quote_spec(m, c, to, row.0) {
            Err(e) => Err(e),
            Ok(q) => Ok((row.0, row.2, q)),
        },
    }
}

/// Bulk conversion: every row in order, failing as a whole on the first row
/// whose code is unknown or whose date cannot be served.
pub open spec fn convert_rows_spec(
    m: Seq<EntryModel>,
    to: Currency,
    rows: Seq<(int, Seq<char>, Seq<char>)>,
) -> Result<Seq<(int, Seq<char>, QuoteModel)>, ExchangeError>
    decreases rows.len(),
{
    if rows.len() == 0 {
        Ok(Seq::empty())
    } else {
        match convert_rows_spec(m, to, rows.drop_last()) {
            Err(e) => Err(e),
            Ok(done) => match convert_row_spec(m, to, rows.last()) {
                Err(e) => Err(e),
                Ok(c) => Ok(done.push(c)),
            },
        }
    }
}

/// The model of a run of ledger rows.
pub open spec fn ledger_model(v: Seq<LedgerRow>) -> Seq<(int, Seq<char>, Seq<char>)> {
    v.map_values(|r: LedgerRow| r@)
}

/// The model of a run of converted rows.
pub open spec fn converted_model(v: Seq<ConvertedRow>) -> Seq<(int, Seq<char>, QuoteModel)> {
    v.map_values(|r: ConvertedRow| r@)
}

/// The per-pair checks `new` makes, from position `i` on: no pair for the
/// base currency, no currency twice, no empty series. The first failing
/// pair decides the error.
pub open spec fn assemble_check(
    pm: Seq<(Currency, Seq<(int, Seq<char>)>)>,
    i: int,
) -> Result<(), ExchangeError>
    decreases pm.len() - i,
{
    if i < 0 || i >= pm.len() {
        Ok(())
    } else if pm[i].0 == BASE_CURRENCY {
        Err(ExchangeError::MalformedData)
    } else if exists|j: int| 0 <= j < i && (#[trigger] pm[j]).0 == pm[i].0 {
        Err(ExchangeError::MalformedData)
    } else if pm[i].1.len() == 0 {
        Err(ExchangeError::EmptySeries)
    } else {
        assemble_check(pm, i + 1)
    }
}

/// The correspondence `new` establishes on success: one entry per pair, in
/// order, holding the pair's series raw and its daily expansion up to
/// `today` (a same-day row is always requested).
pub open spec fn assembled(
    em: Seq<EntryModel>,
    pm: Seq<(Currency, Seq<(int, Seq<char>)>)>,
    today: int,
) -> bool {
    &&& em.len() == pm.len()
    &&& forall|i: int| 0 <= i < em.len() ==> (#[trigger] em[i]).0 == pm[i].0
    &&& forall|i: int| 0 <= i < em.len() ==> (#[trigger] em[i]).1 == pm[i].1
    &&& forall|i: int|
        0 <= i < em.len() ==> is_expansion_of(
            (#[trigger] em[i]).2,
            pm[i].1,
            expand_hi(pm[i].1, true, today),
        )
}

/// The model of a run of (currency, series) pairs.
pub open spec fn pairs_model(
    v: Seq<(Currency, RateSeries)>,
) -> Seq<(Currency, Seq<(int, Seq<char>)>)> {
    v.map_values(|p: (Currency, RateSeries)| (p.0, p.1@))
}

/// The engine: one raw and one expanded series per non-base currency.
#[derive(Debug)]
pub struct CurrencyExchange {
    entries: Vec<Entry>,
}

impl View for CurrencyExchange {
    type V = Seq<EntryModel>;

    closed spec fn view(&self) -> Seq<EntryModel> {
        entries_model(self.entries@)
    }
}

impl CurrencyExchange {
    pub open spec fn wf(&self) -> bool {
        engine_wf(self@)
    }

    /// The key under which the pair (foreign, base) is cached: the two
    /// currency codes, concatenated.
    pub fn key(currency_from: &Currency, currency_to: &Currency) -> (r: String)
        ensures
            r@ == currency_from.code_spec() + currency_to.code_spec(),
    {
        let mut s = String::from_str(currency_from.code());
        s.append(currency_to.code());
        s
    }

    /// The path under which the pair (foreign, base) is persisted.
    pub fn cache_file_name(currency: &Currency) -> (r: String)
        ensures
            r@ == "data/exchange_rate_"@ + currency.code_spec() + BASE_CURRENCY.code_spec()
                + ".csv"@,
    {
        let mut s = String::from_str("data/exchange_rate_");
        s.append(Self::key(currency, &BASE_CURRENCY).as_str());
        s.append(".csv");
        s
    }

    /// Builds the engine from one (currency, raw series) pair per non-base
    /// currency, expanding each series up to `today` with a same-day row.
    /// `Err` exactly when a pair names the base currency, a currency occurs
    /// twice, or a series is empty; the first failing pair decides.
    #[verifier::loop_isolation(false)]
    pub fn new(pairs: Vec<(Currency, RateSeries)>, today: i64) -> (r: Result<
        CurrencyExchange,
        ExchangeError,
    >)
        requires
            forall|i: int| 0 <= i < pairs@.len() ==> (#[trigger] pairs@[i]).1.wf(),
            is_supported_day(today as int),
        ensures
            r is Ok <==> assemble_check(pairs_model(pairs@), 0) is Ok,
            r matches Err(e) ==> Err::<(), ExchangeError>(e) == assemble_check(
                pairs_model(pairs@),
                0,
            ),
            r matches Ok(en) ==> en.wf() && assembled(en@, pairs_model(pairs@), today as int),
    {
        let ghost orig = pairs@;
        let ghost pm = pairs_model(pairs@);
        let mut pairs = pairs;
        let total = pairs.len();
        proof {
            assert(orig.len() == total);
        }
        let mut entries: Vec<Entry> = Vec::new();
        let mut i: usize = 0;
        proof {
            assert(pairs@ =~= orig.skip(0));
            assert(pm.take(0) =~= Seq::<(Currency, Seq<(int, Seq<char>)>)>::empty());
            assert(entries_model(entries@) =~= Seq::<EntryModel>::empty());
        }
        while i < total
            invariant
                0 <= i <= pm.len(),
                pm == pairs_model(orig),
                pm.len() == orig.len(),
                total == orig.len(),
                i + pairs@.len() == orig.len(),
                pairs@ == orig.skip(i as int),
                forall|t: int| 0 <= t < orig.len() ==> (#[trigger] orig[t]).1.wf(),
                is_supported_day(today as int),
                assemble_check(pm, i as int) == assemble_check(pm, 0),
                entries_model(entries@).len() == i,
                assembled(entries_model(entries@), pm.take(i as int), today as int),
                engine_wf(entries_model(entries@)),
            decreases pairs.len(),
        {
            let ghost em = entries_model(entries@);
            let pair = pairs.remove(0);
            proof {
                assert(orig.skip(i as int)[0] == orig[i as int]);
                assert(pairs@ =~= orig.skip(i as int + 1));
                assert(pm[i as int] == (orig[i as int].0, orig[i as int].1@));
            }
            let currency = pair.0;
            proof {
                assert(pair == orig[i as int]);
            }
            if currency == BASE_CURRENCY {
                proof {
                    assert(assemble_check(pm, i as int) == Err::<(), ExchangeError>(
                        ExchangeError::MalformedData,
                    ));
                }
                return Err(ExchangeError::MalformedData);
            }
            let mut j: usize = 0;
            while j < entries.len()
                invariant
                    0 <= j <= entries@.len(),
                    em == entries_model(entries@),
                    forall|t: int| 0 <= t < j ==> (#[trigger] em[t]).0 != currency,
                decreases entries.len() - j,
            {
                if entries[j].currency == currency {
                    proof {
                        assert(em[j as int].0 == currency);
                        assert(em[j as int].0 == pm.take(i as int)[j as int].0);
                        assert(pm[j as int].0 == pm[i as int].0);
                        assert(assemble_check(pm, i as int) == Err::<(), ExchangeError>(
                            ExchangeError::MalformedData,
                        ));
                    }
                    return Err(ExchangeError::MalformedData);
                }
                j = j + 1;
            }
            proof {
                assert forall|t: int| 0 <= t < i implies (#[trigger] pm[t]).0 != currency by {
                    assert(em[t].0 == pm.take(i as int)[t].0);
                }
            }
            let expanded = match pair.1.expand(true, today) {
                Ok(e) => e,
                Err(_) => {
                    proof {
                        assert(pm[i as int].1.len() == 0);
                        assert(assemble_check(pm, i as int) == Err::<(), ExchangeError>(
                            ExchangeError::EmptySeries,
                        ));
                    }
                    return Err(ExchangeError::EmptySeries);
                },
            };
            proof {
                assert(is_expansion_of(expanded@, pm[i as int].1, expand_hi(pm[i as int].1, true, today as int)));
            }
            entries.push(Entry { currency, raw: pair.1, expanded });
            i = i + 1;
            proof {
                assert(!(exists|j: int| 0 <= j < i - 1 && (#[trigger] pm[j]).0 == pm[i - 1].0));
                assert(pm[i as int - 1].1.len() > 0);
                assert(assemble_check(pm, i as int - 1) == assemble_check(pm, i as int));
                let em2 = entries_model(entries@);
                assert(em2 =~= em.push((currency, orig[i as int - 1].1@, expanded@)));
                assert(pm.take(i as int).drop_last() =~= pm.take(i as int - 1));
                assert forall|t: int| 0 <= t < em2.len() implies wf_model((#[trigger] em2[t]).2)
                    && gap_free(em2[t].2) by {
                    if t < em.len() {
                        assert(em2[t] == em[t]);
                    } else {
                        let e = em2[t].2;
                        assert(e.len() > 0);
                        assert forall|k: int| 0 <= k < e.len() implies (#[trigger] e[k]).0
                            == e[0].0 + k by {
                            assert(e[k].0 == min_day(pm[i as int - 1].1) + k);
                            assert(e[0].0 == min_day(pm[i as int - 1].1));
                        }
                    }
                }
                assert forall|t: int| 0 <= t < em2.len() implies wf_model((#[trigger] em2[t]).1)
                    && em2[t].1.len() > 0 && em2[t].0 != BASE_CURRENCY by {
                    if t < em.len() {
                        assert(em2[t] == em[t]);
                    }
                }
                assert forall|t: int, u: int| 0 <= t < u < em2.len() implies (
                #[trigger] em2[t]).0 != (#[trigger] em2[u]).0 by {
                    if u < em.len() {
                        assert(em2[t] == em[t] && em2[u] == em[u]);
                    } else {
                        assert(em2[t] == em[t]);
                        assert(em[t].0 == pm.take(i as int - 1)[t].0);
                        assert(pm[t].0 != currency);
                    }
                }
            }
        }
        proof {
            assert(pm.take(i as int) =~= pm);
        }
        Ok(CurrencyExchange { entries })
    }

    /// `new` against the clock's own date, which is also returned: when
    /// that date lies outside the supported calendar the answer is exactly
    /// `Err(DateOutOfRange)`, and otherwise exactly what `new` answers for
    /// the pairs on that date.
    pub fn new_now(pairs: Vec<(Currency, RateSeries)>) -> (r: (i64, Result<
        CurrencyExchange,
        ExchangeError,
    >))
        requires
            forall|i: int| 0 <= i < pairs@.len() ==> (#[trigger] pairs@[i]).1.wf(),
        ensures
            !is_supported_day(r.0 as int) ==> r.1 == Err::<CurrencyExchange, ExchangeError>(
                ExchangeError::DateOutOfRange,
            ),
            is_supported_day(r.0 as int) ==> (r.1 is Ok <==> assemble_check(
                pairs_model(pairs@),
                0,
            ) is Ok),
            is_supported_day(r.0 as int) ==> (r.1 matches Err(e) ==> Err::<(), ExchangeError>(e)
                == assemble_check(pairs_model(pairs@), 0)),
            r.1 matches Ok(en) ==> is_supported_day(r.0 as int) && en.wf() && assembled(
                en@,
                pairs_model(pairs@),
                r.0 as int,
            ),
    {
        let today = today_from_clock();
        if today < 1 || today > RateSeries::last_day() {
            return (today, Err(ExchangeError::DateOutOfRange));
        }
        (today, Self::new(pairs, today))
    }

    /// The index of the entry for `c`, if one is stored.
    fn find(&self, c: Currency) -> (r: Option<usize>)
        ensures
            r matches Some(i) ==> i < self@.len() && self@[i as int].0 == c,
            r is None ==> !has_series(self@, c),
    {
        let ghost m = self@;
        let mut i: usize = 0;
        while i < self.entries.len()
            invariant
                0 <= i <= m.len(),
                m == self@,
                m.len() == self.entries@.len(),
                forall|t: int| 0 <= t < i ==> (#[trigger] m[t]).0 != c,
            decreases self.entries.len() - i,
        {
            if self.entries[i].currency == c {
                proof {
                    assert(m[i as int].0 == c);
                }
                return Some(i);
            }
            i = i + 1;
        }
        None
    }

    /// The historic exchange rate between two currencies at a given date,
    /// as a quote over the stored rate texts: exactly the closed case
    /// analysis of `rate_quote_spec`.
    pub fn exchange_currency(&self, currency_from: &Currency, currency_to: &Currency, day: i64)
        -> (r: Result<Quote, ExchangeError>)
        requires
            self.wf(),
        ensures
            r matches Ok(q) ==> rate_quote_spec(self@, *currency_from, *currency_to, day as int)
                == Ok::<QuoteModel, ExchangeError>(q@),
            r matches Err(e) ==> rate_quote_spec(self@, *currency_from, *currency_to, day as int)
                == Err::<QuoteModel, ExchangeError>(e),
    {
        let from = *currency_from;
        let to = *currency_to;
        if from == to {
            return Ok(Quote::One);
        }
        if to == BASE_CURRENCY {
            let t = self.read_at(from, day);
            return match t {
                Ok(v) => Ok(Quote::Direct(v)),
                Err(e) => Err(e),
            };
        }
        if from == BASE_CURRENCY {
            let t = self.read_at(to, day);
            return match t {
                Ok(v) => Ok(Quote::Inverse(v)),
                Err(e) => Err(e),
            };
        }
        let vf = match self.read_at(from, day) {
            Ok(v) => v,
            Err(e) => {
                return Err(e);
            },
        };
        let vt = match self.read_at(to, day) {
            Ok(v) => v,
            Err(e) => {
                return Err(e);
            },
        };
        Ok(Quote::Cross(vf, vt))
    }

    /// Reads the stored rate text of `c` at `day`: `Err(SeriesNotFound)`
    /// when no series is stored for `c`, `Err(DateOutOfRange)` when `day`
    /// lies outside the series' span, and the day's text otherwise.
    fn read_at(&self, c: Currency, day: i64) -> (r: Result<String, ExchangeError>)
        requires
            self.wf(),
        ensures
            !has_series(self@, c) <==> r == Err::<String, ExchangeError>(
                ExchangeError::SeriesNotFound,
            ),
            has_series(self@, c) && !in_range(series_of(self@, c), day as int) <==> r == Err::<
                String,
                ExchangeError,
            >(ExchangeError::DateOutOfRange),
            r is Ok <==> has_series(self@, c) && in_range(series_of(self@, c), day as int),
            r matches Ok(v) ==> v@ == series_value(series_of(self@, c), day as int),
    {
        let ghost m = self@;
        let i = match self.find(c) {
            Some(i) => i,
            None => {
                return Err(ExchangeError::SeriesNotFound);
            },
        };
        proof {
            lemma_entry_at(m, c, i as int);
        }
        let e = &self.entries[i].expanded;
        proof {
            assert(e@ == m[i as int].2);
            assert(gap_free(e@));
            assert(e@[0].0 == min_day(e@));
            assert(e@[e@.len() - 1].0 == min_day(e@) + e@.len() - 1);
        }
        let lo = e.day_at(0);
        let n = e.len();
        let hi = e.day_at(n - 1);
        if day < lo || day > hi {
            return Err(ExchangeError::DateOutOfRange);
        }
        let idx: usize = (day - lo) as usize;
        let v = e.value_at(idx).clone();
        proof {
            assert(v@ == e@[day - lo].1);
        }
        Ok(v)
    }

    /// Converts a table of ledger rows into `currency_to`: the output has
    /// one row per input row, in order, carrying the input row's date and
    /// amount text and the quote for its currency at its date; the whole
    /// operation fails on the first row whose code is unknown or whose
    /// date cannot be served.
    pub fn exchange_currencies(&self, currency_to: &Currency, rows: &Vec<LedgerRow>) -> (r:
        Result<Vec<ConvertedRow>, ExchangeError>)
        requires
            self.wf(),
        ensures
            r matches Ok(out) ==> convert_rows_spec(self@, *currency_to, ledger_model(rows@))
                == Ok::<Seq<(int, Seq<char>, QuoteModel)>, ExchangeError>(converted_model(out@)),
            r matches Err(e) ==> convert_rows_spec(self@, *currency_to, ledger_model(rows@))
                == Err::<Seq<(int, Seq<char>, QuoteModel)>, ExchangeError>(e),
    {
        let ghost m = self@;
        let ghost rm = ledger_model(rows@);
        let to = *currency_to;
        let mut out: Vec<ConvertedRow> = Vec::new();
        let mut i: usize = 0;
        proof {
            assert(rm.take(0) =~= Seq::<(int, Seq<char>, Seq<char>)>::empty());
            assert(converted_model(out@) =~= Seq::<(int, Seq<char>, QuoteModel)>::empty());
        }
        while i < rows.len()
            invariant
                0 <= i <= rm.len(),
                m == self@,
                self.wf(),
                to == *currency_to,
                rm == ledger_model(rows@),
                rm.len() == rows@.len(),
                convert_rows_spec(m, to, rm.take(i as int)) == Ok::<
                    Seq<(int, Seq<char>, QuoteModel)>,
                    ExchangeError,
                >(converted_model(out@)),
            decreases rows.len() - i,
        {
            let ghost done = converted_model(out@);
            let row = &rows[i];
            proof {
                assert(row@ == rm[i as int]);
                assert(rm.take(i + 1).drop_last() =~= rm.take(i as int));
                assert(rm.take(i + 1).last() == rm[i as int]);
            }
            let c = match Currency::from_code(&row.code) {
                Some(c) => c,
                None => {
                    proof {
                        lemma_convert_err_extends(
                            m,
                            to,
                            rm,
                            i + 1,
                            ExchangeError::UnknownCurrency,
                        );
                    }
                    return Err(ExchangeError::UnknownCurrency);
                },
            };
            let quote = match self.exchange_currency(&c, currency_to, row.day) {
                Ok(q) => q,
                Err(e) => {
                    proof {
                        lemma_convert_err_extends(m, to, rm, i + 1, e);
                    }
                    return Err(e);
                },
            };
            out.push(ConvertedRow { day: row.day, value: row.value.clone(), quote });
            proof {
                assert(converted_model(out@) =~= done.push(
                    (rm[i as int].0, rm[i as int].2, quote@),
                ));
            }
            i = i + 1;
        }
        proof {
            assert(rm.take(i as int) =~= rm);
        }
        Ok(out)
    }

    /// The number of stored entries.
    pub fn entry_count(&self) -> (r: usize)
        ensures
            r == self@.len(),
    {
        self.entries.len()
    }

    /// The currency of the entry at `i`.
    pub fn currency_at(&self, i: usize) -> (r: Currency)
        requires
            i < self@.len(),
        ensures
            r == self@[i as int].0,
    {
        self.entries[i].currency
    }

    /// The raw (un-expanded) series of the entry at `i`: what is persisted.
    pub fn raw_at(&self, i: usize) -> (r: &RateSeries)
        requires
            i < self@.len(),
        ensures
            r@ == self@[i as int].1,
    {
        &self.entries[i].raw
    }

    /// The expanded series of the entry at `i`: what lookups read.
    pub fn expanded_at(&self, i: usize) -> (r: &RateSeries)
        requires
            i < self@.len(),
        ensures
            r@ == self@[i as int].2,
    {
        &self.entries[i].expanded
    }
}

/// In a well-formed engine the entry found at an index is the entry of its
/// currency: the choice in `entry_of` is unambiguous.
proof fn lemma_entry_at(m: Seq<EntryModel>, c: Currency, i: int)
    requires
        engine_wf(m),
        0 <= i < m.len(),
        m[i].0 == c,
    ensures
        has_series(m, c),
        entry_of(m, c) == m[i],
        series_of(m, c) == m[i].2,
{
    assert(has_series(m, c));
    let j = choose|j: int| 0 <= j < m.len() && (#[trigger] m[j]).0 == c;
    if i < j {
        assert(m[i].0 != m[j].0);
    }
    if j < i {
        assert(m[j].0 != m[i].0);
    }
}

/// Once bulk conversion has failed on some prefix, the whole table fails
/// with that error.
proof fn lemma_convert_err_extends(
    m: Seq<EntryModel>,
    to: Currency,
    rows: Seq<(int, Seq<char>, Seq<char>)>,
    j: int,
    e: ExchangeError,
)
    requires
        0 <= j <= rows.len(),
        convert_rows_spec(m, to, rows.take(j)) == Err::<
            Seq<(int, Seq<char>, QuoteModel)>,
            ExchangeError,
        >(e),
    ensures
        convert_rows_spec(m, to, rows) == Err::<Seq<(int, Seq<char>, QuoteModel)>, ExchangeError>(
            e,
        ),
    decreases rows.len() - j,
{
    if j == rows.len() {
        assert(rows.take(j) =~= rows);
    } else {
        assert(rows.take(j + 1).drop_last() =~= rows.take(j));
        lemma_convert_err_extends(m, to, rows, j + 1, e);
    }
}

/// Same-currency identity: for every currency and every date the quote is
/// 1, with no series stored and no date check made.
pub proof fn lemma_same_currency(m: Seq<EntryModel>, x: Currency, day: int)
    ensures
        rate_quote_spec(m, x, x, day) == Ok::<QuoteModel, ExchangeError>(QuoteModel::One),
{
}

/// Inversion consistency: whenever a query succeeds, the opposite
/// direction succeeds with the reciprocal quote.
pub proof fn lemma_inversion(m: Seq<EntryModel>, a: Currency, b: Currency, day: int, q: QuoteModel)
    requires
        rate_quote_spec(m, a, b, day) == Ok::<QuoteModel, ExchangeError>(q),
    ensures
        rate_quote_spec(m, b, a, day) == Ok::<QuoteModel, ExchangeError>(recip_quote(q)),
{
}

/// Triangulation consistency: between two non-base currencies the query
/// succeeds exactly when both its base-currency legs succeed, and then
/// composes their quotes.
pub proof fn lemma_triangulation(m: Seq<EntryModel>, a: Currency, b: Currency, day: int)
    requires
        a != BASE_CURRENCY,
        b != BASE_CURRENCY,
        a != b,
    ensures
        rate_quote_spec(m, a, b, day) is Ok <==> rate_quote_spec(m, a, BASE_CURRENCY, day) is Ok
            && rate_quote_spec(m, BASE_CURRENCY, b, day) is Ok,
        forall|u: Seq<char>, w: Seq<char>|
            rate_quote_spec(m, a, BASE_CURRENCY, day) == Ok::<QuoteModel, ExchangeError>(
                QuoteModel::Direct(u),
            ) && rate_quote_spec(m, BASE_CURRENCY, b, day) == Ok::<QuoteModel, ExchangeError>(
                QuoteModel::Inverse(w),
            ) ==> rate_quote_spec(m, a, b, day) == Ok::<QuoteModel, ExchangeError>(
                QuoteModel::Cross(u, w),
            ),
{
}

/// Range rejection: a date outside the cached span of the series the query
/// must read is answered with `DateOutOfRange`, never extrapolated.
pub proof fn lemma_range_rejection(m: Seq<EntryModel>, a: Currency, day: int)
    requires
        a != BASE_CURRENCY,
        has_series(m, a),
        !in_range(series_of(m, a), day),
    ensures
        rate_quote_spec(m, a, BASE_CURRENCY, day) == Err::<QuoteModel, ExchangeError>(
            ExchangeError::DateOutOfRange,
        ),
        rate_quote_spec(m, BASE_CURRENCY, a, day) == Err::<QuoteModel, ExchangeError>(
            ExchangeError::DateOutOfRange,
        ),
{
}

/// The relation between one input row and its converted row: the date and
/// amount text carried over, the currency code known, and the quote the
/// lookup answers for that currency at that date.
pub open spec fn row_converted(
    m: Seq<EntryModel>,
    to: Currency,
    row: (int, Seq<char>, Seq<char>),
    outrow: (int, Seq<char>, QuoteModel),
) -> bool {
    &&& outrow.0 == row.0
    &&& outrow.1 == row.2
    &&& Currency::from_code_spec(row.1) is Some
    &&& rate_quote_spec(m, Currency::from_code_spec(row.1)->Some_0, to, row.0) == Ok::<
        QuoteModel,
        ExchangeError,
    >(outrow.2)
}

/// Row correspondence of bulk conversion: on success there is one output
/// row per input row, in order, each related to its input row by
/// `row_converted`.
pub proof fn lemma_convert_correspondence(
    m: Seq<EntryModel>,
    to: Currency,
    rows: Seq<(int, Seq<char>, Seq<char>)>,
    out: Seq<(int, Seq<char>, QuoteModel)>,
)
    requires
        convert_rows_spec(m, to, rows) == Ok::<Seq<(int, Seq<char>, QuoteModel)>, ExchangeError>(
            out,
        ),
    ensures
        out.len() == rows.len(),
        forall|i: int| 0 <= i < rows.len() ==> row_converted(m, to, rows[i], #[trigger] out[i]),
    decreases rows.len(),
{
    if rows.len() > 0 {
        assert(convert_rows_spec(m, to, rows.drop_last()) is Ok);
        assert(convert_row_spec(m, to, rows.last()) is Ok);
        let done = convert_rows_spec(m, to, rows.drop_last())->Ok_0;
        let c = convert_row_spec(m, to, rows.last())->Ok_0;
        lemma_convert_correspondence(m, to, rows.drop_last(), done);
        assert(out == done.push(c));
        assert(rows.last() == rows[rows.len() - 1]);
        assert(row_converted(m, to, rows.last(), c));
        assert forall|i: int| 0 <= i < rows.len() implies row_converted(
            m,
            to,
            rows[i],
            #[trigger] out[i],
        ) by {
            if i < rows.len() - 1 {
                assert(out[i] == done[i]);
                assert(rows.drop_last()[i] == rows[i]);
            } else {
                assert(out[i] == c);
            }
        }
    }
}

} // verus!
