//! Daily rate series and the gap-fill algorithm.
//!
//! A series is an ordered run of `(day, value)` observations with strictly
//! increasing days. The value is the rate's decimal text, carried verbatim:
//! the series never interprets it, so every statement here holds whatever
//! numbers the texts denote. `expand` resamples a sparse series to one row
//! per calendar day, carrying the most recent earlier value forward into
//! every gap; `merge` appends freshly fetched observations after the cached
//! span; `refresh_plan` decides whether a fetch is due at all.

use crate::date::day_from_ymd;
use crate::date::days_before_month;
use crate::date::days_before_year;
use crate::date::days_in_month;
use crate::date::days_in_year;
use crate::date::is_supported_day;
use crate::date::last_supported_day;
use crate::date::lemma_months_cover_year;
use crate::date::today_from_clock;
use crate::error::ExchangeError;
use vstd::prelude::*;

verus! {

/// One day's observed rate: a day number and the rate's decimal text.
#[derive(Debug)]
pub struct Observation {
    pub day: i64,
    pub value: String,
}

impl View for Observation {
    type V = (int, Seq<char>);

    open spec fn view(&self) -> (int, Seq<char>) {
        (self.day as int, self.value@)
    }
}

impl Clone for Observation {
    fn clone(&self) -> (r: Self)
        ensures
            r@ == self@,
    {
        Observation { day: self.day, value: self.value.clone() }
    }
}

/// Days strictly increase along the series.
pub open spec fn sorted_model(m: Seq<(int, Seq<char>)>) -> bool {
    forall|i: int, j: int| 0 <= i < j < m.len() ==> (#[trigger] m[i]).0 < (#[trigger] m[j]).0
}

/// Every day of the series lies in the supported calendar range.
pub open spec fn supported_model(m: Seq<(int, Seq<char>)>) -> bool {
    forall|i: int| 0 <= i < m.len() ==> is_supported_day((#[trigger] m[i]).0)
}

pub open spec fn wf_model(m: Seq<(int, Seq<char>)>) -> bool {
    sorted_model(m) && supported_model(m)
}

pub open spec fn min_day(m: Seq<(int, Seq<char>)>) -> int {
    m[0].0
}

pub open spec fn max_day(m: Seq<(int, Seq<char>)>) -> int {
    m[m.len() - 1].0
}

/// The value carried at `day`: the value of the last observation at or
/// before `day` (the empty sequence if there is none).
pub open spec fn carried(m: Seq<(int, Seq<char>)>, day: int) -> Seq<char>
    decreases m.len(),
{
    if m.len() == 0 {
        Seq::empty()
    } else if m.last().0 <= day {
        m.last().1
    } else {
        carried(m.drop_last(), day)
    }
}

/// The last calendar day of the expansion: the series' own last day, or
/// today when a same-day row is requested and the series ends earlier.
pub open spec fn expand_hi(m: Seq<(int, Seq<char>)>, add_today: bool, today: int) -> int {
    if add_today && today > max_day(m) {
        today
    } else {
        max_day(m)
    }
}

/// What it means for `e` to be the daily expansion of `m` up to `hi`:
/// one row per calendar day from the first day of `m` through `hi`, each
/// carrying the most recent value of `m` at or before it.
pub open spec fn is_expansion_of(
    e: Seq<(int, Seq<char>)>,
    m: Seq<(int, Seq<char>)>,
    hi: int,
) -> bool {
    &&& e.len() == hi - min_day(m) + 1
    &&& forall|k: int| 0 <= k < e.len() ==> (#[trigger] e[k]).0 == min_day(m) + k
    &&& forall|k: int| 0 <= k < e.len() ==> (#[trigger] e[k]).1 == carried(m, min_day(m) + k)
}

/// The day after which merged observations must lie: the cached maximum,
/// or day 0 (before every supported day) for an empty cache.
pub open spec fn merge_cutoff(a: Seq<(int, Seq<char>)>) -> int {
    if a.len() == 0 {
        0
    } else {
        max_day(a)
    }
}

/// The subsequence of `b` whose observations are dated strictly after
/// `cutoff`, in their original order.
pub open spec fn keep_after(
    b: Seq<(int, Seq<char>)>,
    cutoff: int,
) -> Seq<(int, Seq<char>)>
    decreases b.len(),
{
    if b.len() == 0 {
        Seq::empty()
    } else if b.last().0 > cutoff {
        keep_after(b.drop_last(), cutoff) + seq![b.last()]
    } else {
        keep_after(b.drop_last(), cutoff)
    }
}

/// Which extreme of the date column to take.
#[allow(non_camel_case_types)]
#[derive(Clone, Copy, Debug, PartialEq, Eq, Structural)]
pub enum Extremum {
    MIN,
    MAX,
}

/// What a staleness check decides: nothing to do, or fetch from a day on.
#[derive(Clone, Copy, Debug, PartialEq, Eq, Structural)]
pub enum FetchPlan {
    /// The cached series already reaches today; no request is made.
    UpToDate,
    /// Fetch observations from this day (the cached maximum) through today.
    FetchFrom(i64),
}

/// The staleness rule: fetch exactly when the cached maximum day lies
/// strictly before today, and fetch from that maximum day on.
pub open spec fn refresh_plan_spec(
    m: Seq<(int, Seq<char>)>,
    today: int,
) -> Result<FetchPlan, ExchangeError> {
    if m.len() == 0 {
        Err(ExchangeError::EmptyColumn)
    } else if max_day(m) < today {
        Ok(FetchPlan::FetchFrom(max_day(m) as i64))
    } else {
        Ok(FetchPlan::UpToDate)
    }
}

/// What a cache-load outcome demands before the engine can be built.
#[derive(Clone, Copy, Debug, PartialEq, Eq, Structural)]
pub enum LoadPlan {
    /// No usable cache: fetch the full history.
    FetchFull,
    /// The cache is stale: fetch from this day (its maximum) through today
    /// and merge. Should that fetch fail, the fallback is a full fetch.
    FetchFrom(i64),
    /// The cache already reaches today: use it as it is, with no request.
    UseCached,
}

/// The load rule: a missing or empty cache takes a fresh full history; a
/// stale one is refreshed from its last day on (the staleness rule); a
/// current one is used unchanged.
pub open spec fn load_plan_spec(
    cached: Option<Seq<(int, Seq<char>)>>,
    today: int,
) -> LoadPlan {
    match cached {
        Option::None => LoadPlan::FetchFull,
        Option::Some(m) => if m.len() == 0 {
            LoadPlan::FetchFull
        } else if max_day(m) < today {
            LoadPlan::FetchFrom(max_day(m) as i64)
        } else {
            LoadPlan::UseCached
        },
    }
}

/// The model of a cache-load outcome: the loaded series, or nothing.
pub open spec fn cached_model(cached: Option<&RateSeries>) -> Option<Seq<(int, Seq<char>)>> {
    match cached {
        Option::None => Option::None,
        Option::Some(s) => Option::Some(s@),
    }
}

/// Decides what to do with a cache-load outcome on `today`: exactly the
/// load rule of `load_plan_spec`.
pub fn load_plan(cached: Option<&RateSeries>, today: i64) -> (r: LoadPlan)
    requires
        cached matches Some(s) ==> s.wf(),
    ensures
        r == load_plan_spec(cached_model(cached), today as int),
{
    match cached {
        Option::None => LoadPlan::FetchFull,
        Option::Some(s) => {
            if s.len() == 0 {
                LoadPlan::FetchFull
            } else {
                match s.refresh_plan(today) {
                    Ok(FetchPlan::FetchFrom(d)) => LoadPlan::FetchFrom(d),
                    Ok(FetchPlan::UpToDate) => LoadPlan::UseCached,
                    Err(_) => LoadPlan::FetchFull,
                }
            }
        },
    }
}

/// `load_plan` against the clock's own date, which is also returned: the
/// decision is exactly the load rule applied to that date.
pub fn load_plan_now(cached: Option<&RateSeries>) -> (r: (i64, LoadPlan))
    requires
        cached matches Some(s) ==> s.wf(),
    ensures
        r.1 == load_plan_spec(cached_model(cached), r.0 as int),
{
    let today = today_from_clock();
    (today, load_plan(cached, today))
}

/// An ordered daily series of rate observations for one currency pair.
#[derive(Debug)]
pub struct RateSeries {
    rows: Vec<Observation>,
}

/// The model of a run of observation rows.
pub open spec fn obs_model(v: Seq<Observation>) -> Seq<(int, Seq<char>)> {
    v.map_values(|o: Observation| o@)
}

impl View for RateSeries {
    type V = Seq<(int, Seq<char>)>;

    closed spec fn view(&self) -> Seq<(int, Seq<char>)> {
        obs_model(self.rows@)
    }
}

impl RateSeries {
    pub open spec fn wf(&self) -> bool {
        wf_model(self@)
    }

    /// The last supported day number, computed at run time so that callers
    /// can test a day against the calendar-range ceiling.
    pub fn last_day() -> (r: i64)
        ensures
            r == last_supported_day(),
    {
        let r = day_from_ymd(9999, 12, 31);
        proof {
            lemma_months_cover_year(9999);
            assert(days_before_month(9999int, 13int) == days_before_month(9999int, 12int)
                + days_in_month(9999int, 12int));
            assert(days_before_year(10000int) == days_before_year(9999int) + days_in_year(
                9999int,
            ));
        }
        r
    }

    /// Builds a series from rows, checking its shape: days must strictly
    /// increase and stay in the supported calendar range. `Err` exactly when
    /// the rows break that shape.
    pub fn from_rows(rows: Vec<Observation>) -> (r: Result<RateSeries, ExchangeError>)
        ensures
            r matches Ok(s) ==> s.wf() && s@ == obs_model(rows@),
            r is Err <==> !wf_model(obs_model(rows@)),
            r is Err ==> r == Err::<RateSeries, ExchangeError>(ExchangeError::MalformedData),
    {
        let ghost m = obs_model(rows@);
        let last = Self::last_day();
        let mut i: usize = 0;
        while i < rows.len()
            invariant
                0 <= i <= rows.len(),
                m == obs_model(rows@),
                last == last_supported_day(),
                forall|k: int| 0 <= k < i ==> is_supported_day((#[trigger] m[k]).0),
                forall|k: int| 0 < k < i ==> m[k - 1].0 < (#[trigger] m[k]).0,
            decreases rows.len() - i,
        {
            let day = rows[i].day;
            if day < 1 || day > last {
                proof {
                    assert(!is_supported_day(m[i as int].0));
                }
                return Err(ExchangeError::MalformedData);
            }
            if i > 0 && rows[i - 1].day >= day {
                proof {
                    assert(!(m[i as int - 1].0 < m[i as int].0));
                }
                return Err(ExchangeError::MalformedData);
            }
            i = i + 1;
        }
        proof {
            lemma_adjacent_sorted(m);
        }
        Ok(RateSeries { rows })
    }

    /// The number of observations.
    pub fn len(&self) -> (r: usize)
        ensures
            r == self@.len(),
    {
        self.rows.len()
    }

    /// The day of the observation at `i`.
    pub fn day_at(&self, i: usize) -> (r: i64)
        requires
            i < self@.len(),
        ensures
            r == self@[i as int].0,
    {
        self.rows[i].day
    }

    /// The value text of the observation at `i`.
    pub fn value_at(&self, i: usize) -> (r: &String)
        requires
            i < self@.len(),
        ensures
            r@ == self@[i as int].1,
    {
        &self.rows[i].value
    }

    /// The earliest or latest date present; `Err` exactly when the series
    /// has no rows at all.
    pub fn extreme_date(&self, extremum: &Extremum) -> (r: Result<i64, ExchangeError>)
        requires
            self.wf(),
        ensures
            self@.len() == 0 <==> r == Err::<i64, ExchangeError>(ExchangeError::EmptyColumn),
            self@.len() > 0 ==> r == Ok::<i64, ExchangeError>(
                match extremum {
                    Extremum::MIN => min_day(self@) as i64,
                    Extremum::MAX => max_day(self@) as i64,
                },
            ),
    {
        if self.rows.len() == 0 {
            return Err(ExchangeError::EmptyColumn);
        }
        match extremum {
            Extremum::MIN => Ok(self.rows[0].day),
            Extremum::MAX => Ok(self.rows[self.rows.len() - 1].day),
        }
    }

    /// Decides whether the series is stale on `today`: a fetch is planned
    /// if and only if the cached maximum day is strictly before `today`,
    /// and then starts at that maximum day.
    pub fn refresh_plan(&self, today: i64) -> (r: Result<FetchPlan, ExchangeError>)
        requires
            self.wf(),
        ensures
            r == refresh_plan_spec(self@, today as int),
    {
        if self.rows.len() == 0 {
            return Err(ExchangeError::EmptyColumn);
        }
        let max = self.rows[self.rows.len() - 1].day;
        if max < today {
            Ok(FetchPlan::FetchFrom(max))
        } else {
            Ok(FetchPlan::UpToDate)
        }
    }

    /// `refresh_plan` against the clock's own date, which is also returned:
    /// the decision is exactly the staleness rule applied to that date.
    pub fn refresh_plan_now(&self) -> (r: (i64, Result<FetchPlan, ExchangeError>))
        requires
            self.wf(),
        ensures
            r.1 == refresh_plan_spec(self@, r.0 as int),
    {
        let today = today_from_clock();
        (today, self.refresh_plan(today))
    }

    /// Appends freshly fetched observations to the cached series, keeping
    /// exactly those dated after the cached span (the feed may re-include
    /// the cached maximum day itself; such rows are dropped). The result is
    /// the cached series followed by those rows in their fetched order.
    pub fn merge(self, fresh: &RateSeries) -> (r: RateSeries)
        requires
            self.wf(),
            fresh.wf(),
        ensures
            r.wf(),
            r@ == self@ + keep_after(fresh@, merge_cutoff(self@)),
    {
        let ghost a = self@;
        let ghost b = fresh@;
        let cutoff: i64 = if self.rows.len() > 0 {
            self.rows[self.rows.len() - 1].day
        } else {
            0
        };
        let mut rows = self.rows;
        let mut i: usize = 0;
        proof {
            assert(b.take(0) =~= Seq::<(int, Seq<char>)>::empty());
            assert(obs_model(rows@) =~= a + keep_after(b.take(0), cutoff as int));
        }
        while i < fresh.rows.len()
            invariant
                0 <= i <= b.len(),
                fresh.wf(),
                b == fresh@,
                obs_model(rows@) == a + keep_after(b.take(i as int), cutoff as int),
            decreases fresh.rows.len() - i,
        {
            let ghost before = obs_model(rows@);
            let o = &fresh.rows[i];
            proof {
                assert(o@ == b[i as int]);
                assert(b.take(i + 1).drop_last() =~= b.take(i as int));
                assert(b.take(i + 1).last() == b[i as int]);
            }
            if o.day > cutoff {
                rows.push(o.clone());
                proof {
                    assert(obs_model(rows@) =~= before.push(b[i as int]));
                    assert(keep_after(b.take(i + 1), cutoff as int) == keep_after(
                        b.take(i as int),
                        cutoff as int,
                    ) + seq![b[i as int]]);
                    assert(obs_model(rows@) =~= a + keep_after(b.take(i + 1), cutoff as int));
                }
            } else {
                proof {
                    assert(keep_after(b.take(i + 1), cutoff as int) =~= keep_after(
                        b.take(i as int),
                        cutoff as int,
                    ));
                    assert(obs_model(rows@) =~= a + keep_after(b.take(i + 1), cutoff as int));
                }
            }
            i = i + 1;
        }
        proof {
            assert(b.take(b.len() as int) =~= b);
            lemma_merge_wf(a, b, cutoff as int);
        }
        RateSeries { rows }
    }

    /// Resamples the series to one row per calendar day from its first day
    /// through `expand_hi` (its own last day, or today when `add_today` is
    /// set and the series ends earlier), carrying the most recent earlier
    /// value into every day without a direct observation. `Err` exactly
    /// when the series is empty.
    pub fn expand(&self, add_today: bool, today: i64) -> (r: Result<RateSeries, ExchangeError>)
        requires
            self.wf(),
            add_today ==> is_supported_day(today as int),
        ensures
            r is Err <==> self@.len() == 0,
            r is Err ==> r == Err::<RateSeries, ExchangeError>(ExchangeError::EmptySeries),
            r matches Ok(s) ==> s.wf() && is_expansion_of(
                s@,
                self@,
                expand_hi(self@, add_today, today as int),
            ),
    {
        let ghost m = self@;
        if self.rows.len() == 0 {
            return Err(ExchangeError::EmptySeries);
        }
        let lo = self.rows[0].day;
        let hi_raw = self.rows[self.rows.len() - 1].day;
        let hi = if add_today && today > hi_raw {
            today
        } else {
            hi_raw
        };
        proof {
            assert(lo as int == min_day(m));
            assert(hi as int == expand_hi(m, add_today, today as int));
            if m.len() > 1 {
                assert(m[0].0 < m[m.len() - 1].0);
            }
            assert(is_supported_day(m[0].0));
            assert(is_supported_day(m[m.len() - 1].0));
            lemma_last_day_bound();
        }
        let mut out: Vec<Observation> = Vec::new();
        let mut day: i64 = lo;
        let mut src: usize = 0;
        while day <= hi
            invariant
                self.wf(),
                m == self@,
                m.len() > 0,
                lo as int == min_day(m),
                hi as int == expand_hi(m, add_today, today as int),
                lo <= day <= hi + 1,
                1 <= lo,
                hi <= last_supported_day() < 4000000,
                src < m.len(),
                m.len() == self.rows@.len() <= usize::MAX,
                m[src as int].0 <= day,
                forall|t: int| src < t < m.len() ==> day <= (#[trigger] m[t]).0,
                obs_model(out@).len() == day - lo,
                forall|k: int| 0 <= k < day - lo ==> (#[trigger] obs_model(out@)[k]).0 == lo + k,
                forall|k: int|
                    0 <= k < day - lo ==> (#[trigger] obs_model(out@)[k]).1 == carried(
                        m,
                        lo + k,
                    ),
            decreases hi + 1 - day,
        {
            while src + 1 < self.rows.len() && self.rows[src + 1].day <= day
                invariant
                    self.wf(),
                    m == self@,
                    src < m.len(),
                    m.len() == self.rows@.len() <= usize::MAX,
                    m[src as int].0 <= day,
                decreases m.len() - src,
            {
                src = src + 1;
            }
            let ghost before = obs_model(out@);
            out.push(Observation { day, value: self.rows[src].value.clone() });
            proof {
                assert forall|t: int| src < t < m.len() implies day < (#[trigger] m[t]).0 by {
                    assert(m[src as int + 1].0 <= m[t].0);
                }
                lemma_carried_at(m, src as int, day as int);
                let after = obs_model(out@);
                assert(after =~= before.push((day as int, m[src as int].1)));
            }
            day = day + 1;
        }
        proof {
            let e = obs_model(out@);
            assert(wf_model(e));
        }
        Ok(RateSeries { rows: out })
    }

    /// `expand` against the clock's own date, which is also returned: the
    /// result is exactly the daily expansion up to that date (or the
    /// series' own last day). `Err(EmptySeries)` exactly when the series is
    /// empty; `Err(DateOutOfRange)` exactly when a same-day row is asked
    /// for and the clock reports a date outside the supported calendar.
    pub fn expand_now(&self, add_today: bool) -> (r: (i64, Result<RateSeries, ExchangeError>))
        requires
            self.wf(),
        ensures
            self@.len() == 0 <==> r.1 == Err::<RateSeries, ExchangeError>(
                ExchangeError::EmptySeries,
            ),
            r.1 == Err::<RateSeries, ExchangeError>(ExchangeError::DateOutOfRange) <==> self@.len()
                > 0 && add_today && !is_supported_day(r.0 as int),
            r.1 matches Err(e) ==> e == ExchangeError::EmptySeries || e
                == ExchangeError::DateOutOfRange,
            r.1 matches Ok(s) ==> s.wf() && is_expansion_of(
                s@,
                self@,
                expand_hi(self@, add_today, r.0 as int),
            ),
    {
        let today = today_from_clock();
        if self.rows.len() == 0 {
            return (today, Err(ExchangeError::EmptySeries));
        }
        if add_today && (today < 1 || today > Self::last_day()) {
            return (today, Err(ExchangeError::DateOutOfRange));
        }
        let t: i64 = if add_today {
            today
        } else {
            1
        };
        let r = self.expand(add_today, t);
        proof {
            match r {
                Ok(ref s) => {
                    assert(expand_hi(self@, add_today, t as int) == expand_hi(
                        self@,
                        add_today,
                        today as int,
                    ));
                    assert(is_expansion_of(s@, self@, expand_hi(self@, add_today, today as int)));
                },
                Err(_) => {},
            }
        }
        (today, r)
    }
}

/// What survives `keep_after`: days after the cutoff and no later than the
/// source's own maximum, still strictly increasing and supported.
proof fn lemma_keep_after(b: Seq<(int, Seq<char>)>, cutoff: int)
    requires
        sorted_model(b),
        supported_model(b),
    ensures
        keep_after(b, cutoff).len() <= b.len(),
        sorted_model(keep_after(b, cutoff)),
        supported_model(keep_after(b, cutoff)),
        forall|t: int|
            0 <= t < keep_after(b, cutoff).len() ==> cutoff < (#[trigger] keep_after(
                b,
                cutoff,
            )[t]).0,
        b.len() > 0 ==> forall|t: int|
            0 <= t < keep_after(b, cutoff).len() ==> (#[trigger] keep_after(b, cutoff)[t]).0
                <= max_day(b),
    decreases b.len(),
{
    if b.len() > 0 {
        let d = b.drop_last();
        assert forall|i: int, j: int| 0 <= i < j < d.len() implies (#[trigger] d[i]).0 < (
        #[trigger] d[j]).0 by {
            assert(d[i] == b[i] && d[j] == b[j]);
        }
        assert forall|i: int| 0 <= i < d.len() implies is_supported_day((#[trigger] d[i]).0) by {
            assert(d[i] == b[i]);
        }
        lemma_keep_after(d, cutoff);
        let kd = keep_after(d, cutoff);
        let k = keep_after(b, cutoff);
        if b.last().0 > cutoff {
            assert(k == kd + seq![b.last()]);
            assert(k[k.len() - 1] == b.last());
            assert forall|t: int| 0 <= t < k.len() - 1 implies #[trigger] k[t] == kd[t] by {}
            assert forall|i: int, j: int| 0 <= i < j < k.len() implies (#[trigger] k[i]).0 < (
            #[trigger] k[j]).0 by {
                if j == k.len() - 1 {
                    if d.len() > 0 {
                        assert(k[i].0 <= max_day(d));
                        assert(max_day(d) == d[d.len() - 1].0);
                        assert(d[d.len() - 1] == b[b.len() - 2]);
                        assert(b[b.len() - 2].0 < b[b.len() - 1].0);
                    }
                }
            }
        }
        if d.len() > 0 {
            assert(max_day(d) == d[d.len() - 1].0);
            assert(d[d.len() - 1] == b[b.len() - 2]);
            assert(b[b.len() - 2].0 < max_day(b));
        }
    }
}

/// A merged series is well formed: the cached part is below the cutoff's
/// successor, the kept part above it, and each part keeps its own order.
proof fn lemma_merge_wf(a: Seq<(int, Seq<char>)>, b: Seq<(int, Seq<char>)>, cutoff: int)
    requires
        wf_model(a),
        wf_model(b),
        cutoff == merge_cutoff(a),
    ensures
        wf_model(a + keep_after(b, cutoff)),
{
    lemma_keep_after(b, cutoff);
    let k = keep_after(b, cutoff);
    let r = a + k;
    assert forall|i: int, j: int| 0 <= i < j < r.len() implies (#[trigger] r[i]).0 < (
    #[trigger] r[j]).0 by {
        if i < a.len() {
            assert(r[i] == a[i]);
            if j < a.len() {
                assert(r[j] == a[j]);
            } else {
                assert(r[j] == k[j - a.len()]);
                assert(a[i].0 <= max_day(a));
                assert(cutoff < k[j - a.len()].0);
            }
        } else {
            assert(r[i] == k[i - a.len()] && r[j] == k[j - a.len()]);
        }
    }
    assert forall|i: int| 0 <= i < r.len() implies is_supported_day((#[trigger] r[i]).0) by {
        if i < a.len() {
            assert(r[i] == a[i]);
        } else {
            assert(r[i] == k[i - a.len()]);
        }
    }
}

/// The supported calendar ends well below any integer-overflow boundary.
pub proof fn lemma_last_day_bound()
    ensures
        0 < last_supported_day() < 4000000,
{
    crate::date::lemma_days_before_year_monotone(1, 10000);
}

/// Strict order between all adjacent days gives strict order everywhere.
proof fn lemma_adjacent_sorted(m: Seq<(int, Seq<char>)>)
    requires
        forall|k: int| 0 < k < m.len() ==> m[k - 1].0 < (#[trigger] m[k]).0,
    ensures
        sorted_model(m),
{
    assert forall|i: int, j: int| 0 <= i < j < m.len() implies (#[trigger] m[i]).0 < (
    #[trigger] m[j]).0 by {
        lemma_sorted_step(m, i, j);
    }
}

proof fn lemma_sorted_step(m: Seq<(int, Seq<char>)>, i: int, j: int)
    requires
        forall|k: int| 0 < k < m.len() ==> m[k - 1].0 < (#[trigger] m[k]).0,
        0 <= i < j < m.len(),
    ensures
        m[i].0 < m[j].0,
    decreases j - i,
{
    if i + 1 < j {
        lemma_sorted_step(m, i + 1, j);
    }
}

/// If `idx` is the last observation at or before `day`, the carried value
/// at `day` is that observation's value.
proof fn lemma_carried_at(m: Seq<(int, Seq<char>)>, idx: int, day: int)
    requires
        sorted_model(m),
        0 <= idx < m.len(),
        m[idx].0 <= day,
        forall|t: int| idx < t < m.len() ==> day < (#[trigger] m[t]).0,
    ensures
        carried(m, day) == m[idx].1,
    decreases m.len(),
{
    if m.last().0 <= day {
        assert(idx == m.len() - 1);
    } else {
        let d = m.drop_last();
        assert(idx < m.len() - 1);
        assert forall|t: int| idx < t < d.len() implies day < (#[trigger] d[t]).0 by {
            assert(d[t] == m[t]);
        }
        assert forall|i: int, j: int| 0 <= i < j < d.len() implies (#[trigger] d[i]).0 < (
        #[trigger] d[j]).0 by {
            assert(d[i] == m[i] && d[j] == m[j]);
        }
        assert(d[idx] == m[idx]);
        lemma_carried_at(d, idx, day);
    }
}

/// A day with a direct observation carries that observation's own value:
/// expansion preserves the rows that already exist at their date.
pub proof fn lemma_observed_day_keeps_its_value(m: Seq<(int, Seq<char>)>, idx: int)
    requires
        sorted_model(m),
        0 <= idx < m.len(),
    ensures
        carried(m, m[idx].0) == m[idx].1,
{
    lemma_carried_at(m, idx, m[idx].0);
}

/// In a gap-free series the carried value at a grid day is the value the
/// series itself holds at that day.
pub proof fn lemma_carried_gap_free(e: Seq<(int, Seq<char>)>, k: int)
    requires
        sorted_model(e),
        0 <= k < e.len(),
        forall|t: int| 0 <= t < e.len() ==> (#[trigger] e[t]).0 == e[0].0 + t,
    ensures
        carried(e, e[0].0 + k) == e[k].1,
{
    lemma_carried_at(e, k, e[0].0 + k);
}

/// Gap-filling is idempotent: the daily expansion of a series that is
/// already a daily expansion is that series itself, whether the second
/// pass asks for a same-day row on the same day or for none at all.
pub proof fn lemma_expand_idempotent(
    m: Seq<(int, Seq<char>)>,
    e1: Seq<(int, Seq<char>)>,
    e2: Seq<(int, Seq<char>)>,
    hi: int,
)
    requires
        wf_model(m),
        m.len() > 0,
        hi >= max_day(m),
        is_expansion_of(e1, m, hi),
        is_expansion_of(e2, e1, max_day(e1)),
    ensures
        e2 == e1,
{
    assert(e1.len() > 0);
    assert(min_day(e1) == min_day(m));
    assert(max_day(e1) == min_day(m) + e1.len() - 1);
    assert(e2.len() == e1.len());
    assert(sorted_model(e1));
    assert forall|k: int| 0 <= k < e2.len() implies #[trigger] e2[k] == e1[k] by {
        assert(e2[k].0 == min_day(e1) + k);
        assert(e2[k].1 == carried(e1, min_day(e1) + k));
        lemma_carried_gap_free(e1, k);
    }
    assert(e2 =~= e1);
}

/// Coverage: an expansion has exactly one row for every calendar day of
/// its span, and none for any day outside it.
pub proof fn lemma_expansion_coverage(
    m: Seq<(int, Seq<char>)>,
    e: Seq<(int, Seq<char>)>,
    hi: int,
    day: int,
)
    requires
        wf_model(m),
        m.len() > 0,
        hi >= max_day(m),
        is_expansion_of(e, m, hi),
    ensures
        min_day(m) <= day <= hi ==> exists|k: int|
            0 <= k < e.len() && (#[trigger] e[k]).0 == day,
        forall|k1: int, k2: int|
            0 <= k1 < e.len() && 0 <= k2 < e.len() && e[k1].0 == day && e[k2].0 == day ==> k1
                == k2,
        !(min_day(m) <= day <= hi) ==> forall|k: int|
            0 <= k < e.len() ==> (#[trigger] e[k]).0 != day,
{
    if min_day(m) <= day <= hi {
        let k = day - min_day(m);
        assert(0 <= k < e.len() && e[k].0 == day);
    }
}

} // verus!
