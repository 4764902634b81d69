//! The text formats at the engine's edges.
//!
//! Two formats meet here. The cache file is a two-column table, a `date,value`
//! header line and one `YYYY-MM-DD,text` line per observation, kept
//! human-inspectable. The feed answers with a wider table whose header names
//! its columns; only `TIME_PERIOD` and `OBS_VALUE` are read. Both are plain
//! separator-split text: no quoting, one record per line. The rate texts
//! themselves pass through verbatim — parsing never interprets them.

use crate::currency::Currency;
use crate::currency::BASE_CURRENCY;
use crate::date::date_chars_of_day;
use crate::date::is_supported_day;
use crate::date::parse_date;
use crate::date::parse_date_spec;
use crate::date::format_date;
use crate::error::ExchangeError;
use crate::series::obs_model;
use crate::series::wf_model;
use crate::series::Observation;
use crate::series::RateSeries;
use vstd::prelude::*;
use vstd::string::StrSliceExecFns;
use vstd::string::StringExecFns;

verus! {

/// Splitting text at a separator: one piece more than there are separators,
/// in order, the separators themselves dropped.
pub open spec fn split_on(s: Seq<char>, sep: char) -> Seq<Seq<char>>
    decreases s.len(),
{
    if s.len() == 0 {
        seq![Seq::empty()]
    } else if s.last() == sep {
        split_on(s.drop_last(), sep).push(Seq::empty())
    } else {
        let pre = split_on(s.drop_last(), sep);
        pre.update(pre.len() - 1, pre.last().push(s.last()))
    }
}

/// Splitting yields at least one piece.
pub proof fn lemma_split_on_len(s: Seq<char>, sep: char)
    ensures
        split_on(s, sep).len() >= 1,
    decreases s.len(),
{
    if s.len() > 0 {
        lemma_split_on_len(s.drop_last(), sep);
    }
}

/// Splits `s` at every occurrence of `sep`.
pub fn split_text(s: &str, sep: char) -> (r: Vec<String>)
    ensures
        string_seq_model(r@) == split_on(s@, sep),
    {
    let ghost g = s@;
    let n = s.unicode_len();
    let mut out: Vec<String> = Vec::new();
    let mut start: usize = 0;
    let mut i: usize = 0;
    proof {
        assert(g.take(0) =~= Seq::<char>::empty());
        assert(split_on(g.take(0), sep) =~= seq![Seq::<char>::empty()]);
        assert(string_seq_model(out@) =~= Seq::<Seq<char>>::empty());
    }
    while i < n
        invariant
            0 <= start <= i <= n,
            n == g.len(),
            g == s@,
            split_on(g.take(i as int), sep).len() == out@.len() + 1,
            string_seq_model(out@) == split_on(g.take(i as int), sep).drop_last(),
            split_on(g.take(i as int), sep).last() == g.subrange(start as int, i as int),
        decreases n - i,
    {
        let c = s.get_char(i);
        proof {
            assert(g.take(i + 1).drop_last() =~= g.take(i as int));
            assert(g.take(i + 1).last() == g[i as int]);
            lemma_split_on_len(g.take(i as int), sep);
        }
        if c == sep {
            let ghost before = string_seq_model(out@);
            let piece = s.substring_char(start, i);
            out.push(piece.to_owned());
            proof {
                assert(string_seq_model(out@) =~= before.push(piece@));
                assert(before.push(piece@) =~= split_on(g.take(i as int), sep));
                assert(split_on(g.take(i + 1), sep) == split_on(g.take(i as int), sep).push(
                    Seq::empty(),
                ));
                assert(split_on(g.take(i + 1), sep).drop_last() =~= split_on(
                    g.take(i as int),
                    sep,
                ));
                assert(split_on(g.take(i + 1), sep).last() =~= g.subrange(i + 1, i + 1));
            }
            start = i + 1;
        } else {
            proof {
                let pre = split_on(g.take(i as int), sep);
                assert(split_on(g.take(i + 1), sep) == pre.update(
                    pre.len() - 1,
                    pre.last().push(g[i as int]),
                ));
                assert(split_on(g.take(i + 1), sep).drop_last() =~= pre.drop_last());
                assert(pre.last().push(g[i as int]) =~= g.subrange(start as int, i + 1));
                assert(split_on(g.take(i + 1), sep).last() == pre.last().push(g[i as int]));
            }
        }
        i = i + 1;
    }
    let ghost before = string_seq_model(out@);
    let piece = s.substring_char(start, n);
    out.push(piece.to_owned());
    proof {
        assert(g.take(n as int) =~= g);
        lemma_split_on_len(g, sep);
        assert(string_seq_model(out@) =~= before.push(piece@));
        assert(piece@ == split_on(g, sep).last());
        assert(split_on(g, sep) =~= split_on(g, sep).drop_last().push(split_on(g, sep).last()));
        assert(string_seq_model(out@) =~= split_on(g, sep));
    }
    out
}

/// The model of a run of strings.
pub open spec fn string_seq_model(v: Seq<String>) -> Seq<Seq<char>> {
    v.map_values(|t: String| t@)
}

/// The first position at or after `i` where `v` holds exactly `name`.
pub open spec fn first_match(v: Seq<Seq<char>>, name: Seq<char>, i: int) -> Option<int>
    decreases v.len() - i,
{
    if i < 0 || i >= v.len() {
        None
    } else if v[i] == name {
        Some(i)
    } else {
        first_match(v, name, i + 1)
    }
}

/// Finds the first field equal to `name`.
pub fn find_field(v: &Vec<String>, name: &String) -> (r: Option<usize>)
    ensures
        match r {
            Some(i) => first_match(string_seq_model(v@), name@, 0) == Some(i as int),
            None => first_match(string_seq_model(v@), name@, 0) is None,
        },
{
    let ghost m = string_seq_model(v@);
    let mut i: usize = 0;
    while i < v.len()
        invariant
            0 <= i <= v@.len(),
            m == string_seq_model(v@),
            m.len() == v@.len(),
            first_match(m, name@, 0) == first_match(m, name@, i as int),
        decreases v.len() - i,
    {
        if v[i] == *name {
            proof {
                assert(m[i as int] == name@);
            }
            return Some(i);
        }
        proof {
            assert(m[i as int] != name@);
        }
        i = i + 1;
    }
    None
}

/// The header line of a cache file.
pub open spec fn cache_header() -> Seq<char> {
    "date,value"@
}

/// A line with any trailing carriage return removed, so that text with
/// `\r\n` line endings reads the same as text with bare `\n`.
pub open spec fn strip_cr(line: Seq<char>) -> Seq<char> {
    if line.len() > 0 && line.last() == '\r' {
        line.drop_last()
    } else {
        line
    }
}

/// The lines of a text: newline-split, each stripped of a trailing
/// carriage return, a trailing newline tolerated.
pub open spec fn lines_of(s: Seq<char>) -> Seq<Seq<char>> {
    let l = split_on(s, '\n').map_values(|p: Seq<char>| strip_cr(p));
    if l.last().len() == 0 {
        l.drop_last()
    } else {
        l
    }
}

/// A line without its trailing carriage return, if it has one.
fn trim_cr(s: &str) -> (r: &str)
    ensures
        r@ == strip_cr(s@),
{
    let n = s.unicode_len();
    if n > 0 && s.get_char(n - 1) == '\r' {
        let r = s.substring_char(0, n - 1);
        proof {
            assert(r@ =~= s@.drop_last());
        }
        r
    } else {
        s
    }
}

/// Splits text into its lines as `lines_of` reads them.
pub fn split_lines(s: &str) -> (r: Vec<String>)
    ensures
        string_seq_model(r@) == lines_of(s@),
{
    let raw = split_text(s, '\n');
    let ghost rm = string_seq_model(raw@);
    proof {
        lemma_split_on_len(s@, '\n');
    }
    let mut out: Vec<String> = Vec::new();
    let mut i: usize = 0;
    while i < raw.len()
        invariant
            0 <= i <= raw@.len(),
            rm == string_seq_model(raw@),
            rm.len() == raw@.len(),
            out@.len() == i,
            forall|k: int|
                0 <= k < i ==> (#[trigger] string_seq_model(out@)[k]) == strip_cr(rm[k]),
        decreases raw.len() - i,
    {
        let ghost before = string_seq_model(out@);
        let t = trim_cr(raw[i].as_str());
        out.push(t.to_owned());
        proof {
            assert(string_seq_model(out@) =~= before.push(t@));
        }
        i = i + 1;
    }
    let ghost stripped = rm.map_values(|p: Seq<char>| strip_cr(p));
    proof {
        assert(string_seq_model(out@) =~= stripped);
        assert(stripped.len() >= 1);
    }
    let last_len = out[out.len() - 1].as_str().unicode_len();
    proof {
        assert(last_len == stripped.last().len());
    }
    if last_len == 0 {
        let _ = out.pop();
        proof {
            assert(string_seq_model(out@) =~= stripped.drop_last());
        }
    }
    proof {
        assert(string_seq_model(out@) =~= lines_of(s@));
    }
    out
}

/// What one cache line denotes: a date, a comma, a nonempty rate text.
pub open spec fn row_of_line(line: Seq<char>) -> Option<(int, Seq<char>)> {
    let f = split_on(line, ',');
    if f.len() == 2 && parse_date_spec(f[0]) is Some && f[1].len() > 0 {
        Some((parse_date_spec(f[0])->Some_0, f[1]))
    } else {
        None
    }
}

/// What a run of cache lines denotes: every line a row, in order.
pub open spec fn rows_of(data: Seq<Seq<char>>) -> Option<Seq<(int, Seq<char>)>>
    decreases data.len(),
{
    if data.len() == 0 {
        Some(Seq::empty())
    } else {
        match rows_of(data.drop_last()) {
            None => None,
            Some(rs) => match row_of_line(data.last()) {
                None => None,
                Some(r) => Some(rs.push(r)),
            },
        }
    }
}

/// What a cache file denotes: the header line, then one row per line.
/// `None` exactly when the text does not follow the format.
pub open spec fn cache_parse_spec(s: Seq<char>) -> Option<Seq<(int, Seq<char>)>> {
    let lines = lines_of(s);
    if lines.len() == 0 {
        None
    } else if lines[0] != cache_header() {
        None
    } else {
        rows_of(lines.subrange(1, lines.len() as int))
    }
}

/// Once a cache line has failed to parse, the whole run fails.
proof fn lemma_rows_of_none_extends(data: Seq<Seq<char>>, j: int)
    requires
        0 <= j <= data.len(),
        rows_of(data.take(j)) is None,
    ensures
        rows_of(data) is None,
    decreases data.len() - j,
{
    if j == data.len() {
        assert(data.take(j) =~= data);
    } else {
        assert(data.take(j + 1).drop_last() =~= data.take(j));
        lemma_rows_of_none_extends(data, j + 1);
    }
}

/// Reads a cache file back into a series. `Err` exactly when the text does
/// not follow the cache format or its rows do not form a well-formed
/// series (days strictly increasing, in the supported calendar).
pub fn parse_cache(s: &str) -> (r: Result<RateSeries, ExchangeError>)
    ensures
        r matches Ok(series) ==> series.wf() && cache_parse_spec(s@) == Some(series@),
        r is Err <==> cache_parse_spec(s@) is None || !wf_model(cache_parse_spec(s@)->Some_0),
        r is Err ==> r == Err::<RateSeries, ExchangeError>(ExchangeError::MalformedData),
{
    let lines = split_lines(s);
    let ghost lm = string_seq_model(lines@);
    if lines.len() == 0 {
        return Err(ExchangeError::MalformedData);
    }
    if !(lines[0] == String::from_str("date,value")) {
        proof {
            assert(lm[0] != cache_header());
        }
        return Err(ExchangeError::MalformedData);
    }
    let ghost data = lm.subrange(1, lm.len() as int);
    let mut rows: Vec<Observation> = Vec::new();
    let mut i: usize = 1;
    proof {
        assert(data.take(0) =~= Seq::<Seq<char>>::empty());
        assert(obs_model(rows@) =~= Seq::<(int, Seq<char>)>::empty());
    }
    while i < lines.len()
        invariant
            1 <= i <= lines@.len(),
            lm == string_seq_model(lines@),
            lm.len() == lines@.len(),
            data == lm.subrange(1, lm.len() as int),
            cache_parse_spec(s@) == rows_of(data),
            rows_of(data.take(i - 1)) == Some(obs_model(rows@)),
        decreases lines.len() - i,
    {
        let ghost done = obs_model(rows@);
        proof {
            assert(data.take(i as int).drop_last() =~= data.take(i - 1));
            assert(data.take(i as int).last() == data[i - 1]);
            assert(data[i - 1] == lm[i as int]);
        }
        let fields = split_text(lines[i].as_str(), ',');
        let ghost fm = string_seq_model(fields@);
        if fields.len() != 2 {
            proof {
                assert(row_of_line(data[i - 1]) is None);
                lemma_rows_of_none_extends(data, i as int);
            }
            return Err(ExchangeError::MalformedData);
        }
        let day = match parse_date(fields[0].as_str()) {
            Some(d) => d,
            None => {
                proof {
                    assert(row_of_line(data[i - 1]) is None);
                    lemma_rows_of_none_extends(data, i as int);
                }
                return Err(ExchangeError::MalformedData);
            },
        };
        if fields[1].as_str().unicode_len() == 0 {
            proof {
                assert(row_of_line(data[i - 1]) is None);
                lemma_rows_of_none_extends(data, i as int);
            }
            return Err(ExchangeError::MalformedData);
        }
        let value = fields[1].clone();
        rows.push(Observation { day, value });
        proof {
            assert(obs_model(rows@) =~= done.push((day as int, fm[1])));
            assert(row_of_line(data[i - 1]) == Some((day as int, fm[1])));
            assert(rows_of(data.take(i as int)) == Some(obs_model(rows@)));
        }
        i = i + 1;
    }
    proof {
        assert(data.take(i - 1) =~= data);
    }
    match RateSeries::from_rows(rows) {
        Ok(series) => Ok(series),
        Err(e) => Err(e),
    }
}

/// The text of a run of observations, one `date,value` line each.
pub open spec fn render_rows(m: Seq<(int, Seq<char>)>) -> Seq<char>
    decreases m.len(),
{
    if m.len() == 0 {
        Seq::empty()
    } else {
        render_rows(m.drop_last()) + date_chars_of_day(m.last().0) + seq![','] + m.last().1
            + seq!['\n']
    }
}

/// The full text of a cache file for a series.
pub open spec fn render_cache_spec(m: Seq<(int, Seq<char>)>) -> Seq<char> {
    cache_header() + seq!['\n'] + render_rows(m)
}

/// Writes a series as a cache file: the header line, then one
/// `YYYY-MM-DD,value` line per observation.
pub fn render_cache(series: &RateSeries) -> (r: String)
    requires
        series.wf(),
    ensures
        r@ == render_cache_spec(series@),
{
    proof {
        reveal_strlit("\n");
        reveal_strlit(",");
    }
    let ghost m = series@;
    let mut s = String::from_str("date,value");
    s.append("\n");
    let n = series.len();
    let mut i: usize = 0;
    proof {
        assert(m.take(0) =~= Seq::<(int, Seq<char>)>::empty());
        assert(s@ =~= cache_header() + seq!['\n'] + render_rows(m.take(0)));
    }
    while i < n
        invariant
            0 <= i <= n,
            n == m.len(),
            m == series@,
            series.wf(),
            s@ == cache_header() + seq!['\n'] + render_rows(m.take(i as int)),
        decreases n - i,
    {
        proof {
            reveal_strlit("\n");
            reveal_strlit(",");
            assert(m.take(i + 1).drop_last() =~= m.take(i as int));
            assert(m.take(i + 1).last() == m[i as int]);
            assert(is_supported_day(m[i as int].0));
        }
        let date = format_date(series.day_at(i));
        s.append(date.as_str());
        s.append(",");
        s.append(series.value_at(i).as_str());
        s.append("\n");
        proof {
            assert(s@ =~= cache_header() + seq!['\n'] + render_rows(m.take(i + 1)));
        }
        i = i + 1;
    }
    proof {
        assert(m.take(n as int) =~= m);
    }
    s
}

// ---------------------------------------------------------------------------
// The round trip: parsing a rendered cache file yields the series itself.
// ---------------------------------------------------------------------------

/// No occurrence of `c` in `s`.
pub open spec fn has_no(s: Seq<char>, c: char) -> bool {
    forall|i: int| 0 <= i < s.len() ==> (#[trigger] s[i]) != c
}

/// A rate text the cache format can carry: nonempty and free of the
/// format's separators and line endings.
pub open spec fn renderable_value(v: Seq<char>) -> bool {
    v.len() > 0 && has_no(v, ',') && has_no(v, '\n') && has_no(v, '\r')
}

/// Appending separator-free text extends the last piece of a split.
proof fn lemma_split_extend(s: Seq<char>, t: Seq<char>, sep: char)
    requires
        has_no(t, sep),
    ensures
        split_on(s + t, sep) == split_on(s, sep).update(
            split_on(s, sep).len() - 1,
            split_on(s, sep).last() + t,
        ),
    decreases t.len(),
{
    lemma_split_on_len(s, sep);
    let pre = split_on(s, sep);
    if t.len() == 0 {
        assert(s + t =~= s);
        assert(pre.last() + t =~= pre.last());
        assert(pre.update(pre.len() - 1, pre.last()) =~= pre);
    } else {
        let t0 = t.drop_last();
        assert forall|i: int| 0 <= i < t0.len() implies (#[trigger] t0[i]) != sep by {
            assert(t0[i] == t[i]);
        }
        lemma_split_extend(s, t0, sep);
        let mid = split_on(s + t0, sep);
        assert(s + t =~= (s + t0).push(t.last()));
        assert((s + t).last() == t.last());
        assert(t.last() != sep);
        assert((s + t).drop_last() =~= s + t0);
        assert(split_on(s + t, sep) == mid.update(mid.len() - 1, mid.last().push(t.last())));
        assert(mid.len() == pre.len());
        assert(mid.last() == pre.last() + t0);
        assert((pre.last() + t0).push(t.last()) =~= pre.last() + t);
        assert(mid.update(mid.len() - 1, mid.last().push(t.last())) =~= pre.update(
            pre.len() - 1,
            pre.last() + t,
        ));
    }
}

/// A separator-free text splits into itself alone.
proof fn lemma_split_whole(t: Seq<char>, sep: char)
    requires
        has_no(t, sep),
    ensures
        split_on(t, sep) == seq![t],
{
    lemma_split_extend(Seq::empty(), t, sep);
    assert(Seq::empty() + t =~= t);
    assert(split_on(Seq::empty(), sep) == seq![Seq::<char>::empty()]);
    assert(Seq::<char>::empty() + t =~= t);
    assert(seq![Seq::<char>::empty()].update(0, Seq::<char>::empty() + t) =~= seq![t]);
}

/// The line of one observation row, without its terminating newline.
pub open spec fn row_line(row: (int, Seq<char>)) -> Seq<char> {
    date_chars_of_day(row.0) + seq![','] + row.1
}

/// The lines of a run of observation rows.
pub open spec fn row_lines(m: Seq<(int, Seq<char>)>) -> Seq<Seq<char>> {
    m.map_values(|row: (int, Seq<char>)| row_line(row))
}

/// A row line has neither line ending in it.
proof fn lemma_row_line_clean(row: (int, Seq<char>))
    requires
        is_supported_day(row.0),
        has_no(row.1, '\n'),
        has_no(row.1, '\r'),
    ensures
        has_no(row_line(row), '\n'),
        has_no(row_line(row), '\r'),
{
    crate::date::lemma_ymd_of_day(row.0);
    let (y, mo, d) = crate::date::ymd_of_day(row.0);
    crate::date::lemma_date_chars_no_separators(y, mo, d);
    let line = row_line(row);
    assert forall|i: int| 0 <= i < line.len() implies (#[trigger] line[i]) != '\n' && line[i]
        != '\r' by {
        let dc = date_chars_of_day(row.0);
        if i < dc.len() {
            assert(line[i] == dc[i]);
        } else if i == dc.len() {
            assert(line[i] == ',');
        } else {
            assert(line[i] == row.1[i - dc.len() - 1]);
        }
    }
}

/// The rendered text of a series splits into the header, one line per row,
/// and the empty piece after the final newline.
proof fn lemma_render_lines(m: Seq<(int, Seq<char>)>)
    requires
        wf_model(m),
        forall|i: int| 0 <= i < m.len() ==> has_no((#[trigger] m[i]).1, '\n'),
        forall|i: int| 0 <= i < m.len() ==> has_no((#[trigger] m[i]).1, '\r'),
    ensures
        split_on(render_cache_spec(m), '\n') == (seq![cache_header()] + row_lines(m)).push(
            Seq::<char>::empty(),
        ),
    decreases m.len(),
{
    lemma_header_clean();
    if m.len() == 0 {
        assert(render_rows(m) =~= Seq::<char>::empty());
        assert(render_cache_spec(m) =~= cache_header().push('\n'));
        lemma_split_whole(cache_header(), '\n');
        assert(split_on(cache_header().push('\n'), '\n') == split_on(cache_header(), '\n').push(
            Seq::<char>::empty(),
        )) by {
            assert(cache_header().push('\n').last() == '\n');
            assert(cache_header().push('\n').drop_last() =~= cache_header());
        }
        assert(seq![cache_header()] + row_lines(m) =~= seq![cache_header()]);
    } else {
        let m0 = m.drop_last();
        assert forall|i: int| 0 <= i < m0.len() implies has_no((#[trigger] m0[i]).1, '\n')
            && has_no(m0[i].1, '\r') by {
            assert(m0[i] == m[i]);
        }
        assert forall|i: int, j: int| 0 <= i < j < m0.len() implies (#[trigger] m0[i]).0 < (
        #[trigger] m0[j]).0 by {
            assert(m0[i] == m[i] && m0[j] == m[j]);
        }
        assert forall|i: int| 0 <= i < m0.len() implies crate::date::is_supported_day(
            (#[trigger] m0[i]).0,
        ) by {
            assert(m0[i] == m[i]);
        }
        lemma_render_lines(m0);
        let prefix = render_cache_spec(m0);
        let line = row_line(m.last());
        assert(render_cache_spec(m) =~= prefix + line + seq!['\n']) by {
            assert(render_rows(m) == render_rows(m0) + date_chars_of_day(m.last().0) + seq![',']
                + m.last().1 + seq!['\n']);
        }
        lemma_row_line_clean(m.last());
        lemma_split_extend(prefix, line, '\n');
        let a = split_on(prefix, '\n');
        let b = split_on(prefix + line, '\n');
        lemma_split_on_len(prefix, '\n');
        assert(a == (seq![cache_header()] + row_lines(m0)).push(Seq::<char>::empty()));
        assert(a.last() =~= Seq::<char>::empty());
        assert(b == a.update(a.len() - 1, a.last() + line));
        assert(a.last() + line =~= line);
        assert(b =~= (seq![cache_header()] + row_lines(m0)).push(line));
        assert((prefix + line).push('\n') =~= prefix + line + seq!['\n']);
        assert(split_on((prefix + line).push('\n'), '\n') == b.push(Seq::<char>::empty())) by {
            assert((prefix + line).push('\n').last() == '\n');
            assert((prefix + line).push('\n').drop_last() =~= prefix + line);
        }
        assert(row_lines(m) =~= row_lines(m0).push(line));
        assert((seq![cache_header()] + row_lines(m0)).push(line) =~= seq![cache_header()]
            + row_lines(m));
    }
}

/// The header holds neither line ending.
proof fn lemma_header_clean()
    ensures
        has_no(cache_header(), '\n'),
        has_no(cache_header(), '\r'),
        cache_header().len() == 10,
{
    reveal_strlit("date,value");
}

/// Each rendered row line parses back to its row.
proof fn lemma_row_line_parses(row: (int, Seq<char>))
    requires
        is_supported_day(row.0),
        renderable_value(row.1),
    ensures
        row_of_line(row_line(row)) == Some(row),
{
    crate::date::lemma_ymd_of_day(row.0);
    let (y, mo, d) = crate::date::ymd_of_day(row.0);
    crate::date::lemma_date_chars_no_separators(y, mo, d);
    crate::date::lemma_digit_round_trip(y, mo, d);
    let dc = date_chars_of_day(row.0);
    assert(has_no(dc, ','));
    lemma_split_whole(dc, ',');
    assert(dc.push(',') =~= dc + seq![',']);
    assert(split_on(dc.push(','), ',') == seq![dc].push(Seq::<char>::empty())) by {
        assert(dc.push(',').last() == ',');
        assert(dc.push(',').drop_last() =~= dc);
    }
    lemma_split_extend(dc + seq![','], row.1, ',');
    let a = split_on(dc + seq![','], ',');
    assert(a == seq![dc].push(Seq::<char>::empty()));
    let f = split_on(row_line(row), ',');
    assert(row_line(row) =~= (dc + seq![',']) + row.1);
    assert(f == a.update(a.len() - 1, a.last() + row.1));
    assert(a.last() + row.1 =~= row.1);
    assert(f =~= seq![dc, row.1]);
    assert(crate::date::parse_date_spec(dc) == Some(row.0)) by {
        assert(crate::date::is_date_text(dc));
        crate::date::lemma_day_number_unique(
            crate::date::text_year(dc),
            crate::date::text_month(dc),
            crate::date::text_dom(dc),
            y,
            mo,
            d,
        );
    }
}

/// Saving then loading is the identity: the cache text rendered from a
/// well-formed series parses back to exactly that series. (The series'
/// value texts must be ones the format can carry: nonempty and free of the
/// comma and newline separators, as every decimal rate text is.)
pub proof fn lemma_cache_round_trip(m: Seq<(int, Seq<char>)>)
    requires
        wf_model(m),
        forall|i: int| 0 <= i < m.len() ==> renderable_value((#[trigger] m[i]).1),
    ensures
        cache_parse_spec(render_cache_spec(m)) == Some(m),
{
    assert forall|i: int| 0 <= i < m.len() implies has_no((#[trigger] m[i]).1, '\n') && has_no(
        m[i].1,
        '\r',
    ) by {}
    lemma_render_lines(m);
    lemma_header_clean();
    let s = render_cache_spec(m);
    let full = split_on(s, '\n');
    assert(full == (seq![cache_header()] + row_lines(m)).push(Seq::<char>::empty()));
    assert(full.last().len() == 0);
    // No piece ends in a carriage return, so the stripping layer of
    // `lines_of` changes nothing.
    assert forall|k: int| 0 <= k < full.len() implies strip_cr(#[trigger] full[k]) == full[k] by {
        if k == 0 {
            assert(full[k] == cache_header());
        } else if k < full.len() - 1 {
            assert(full[k] == row_lines(m)[k - 1]);
            assert(row_lines(m)[k - 1] == row_line(m[k - 1]));
            lemma_row_line_clean(m[k - 1]);
        } else {
            assert(full[k].len() == 0);
        }
    }
    assert(lines_of(s) =~= seq![cache_header()] + row_lines(m)) by {
        let mapped = split_on(s, '\n').map_values(|p: Seq<char>| strip_cr(p));
        assert(mapped =~= full);
    }
    let lines = lines_of(s);
    assert(lines[0] == cache_header());
    assert(lines.subrange(1, lines.len() as int) =~= row_lines(m));
    lemma_rows_round_trip(m);
}

/// A run of rendered row lines parses back to its rows.
proof fn lemma_rows_round_trip(m: Seq<(int, Seq<char>)>)
    requires
        wf_model(m),
        forall|i: int| 0 <= i < m.len() ==> renderable_value((#[trigger] m[i]).1),
    ensures
        rows_of(row_lines(m)) == Some(m),
    decreases m.len(),
{
    if m.len() == 0 {
        assert(row_lines(m) =~= Seq::<Seq<char>>::empty());
        assert(rows_of(row_lines(m)) == Some(Seq::<(int, Seq<char>)>::empty()));
        assert(Seq::<(int, Seq<char>)>::empty() =~= m);
    } else {
        let m0 = m.drop_last();
        assert forall|i: int| 0 <= i < m0.len() implies renderable_value(
            (#[trigger] m0[i]).1,
        ) by {
            assert(m0[i] == m[i]);
        }
        assert forall|i: int, j: int| 0 <= i < j < m0.len() implies (#[trigger] m0[i]).0 < (
        #[trigger] m0[j]).0 by {
            assert(m0[i] == m[i] && m0[j] == m[j]);
        }
        assert forall|i: int| 0 <= i < m0.len() implies crate::date::is_supported_day(
            (#[trigger] m0[i]).0,
        ) by {
            assert(m0[i] == m[i]);
        }
        lemma_rows_round_trip(m0);
        lemma_row_line_parses(m.last());
        assert(row_lines(m).drop_last() =~= row_lines(m0));
        assert(row_lines(m).last() == row_line(m.last()));
        assert(rows_of(row_lines(m)) == Some(m0.push(m.last())));
        assert(m0.push(m.last()) =~= m);
    }
}

} // verus!
