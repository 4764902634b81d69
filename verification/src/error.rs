//! The error taxonomy of the engine.
//!
//! Transport failures and cache misses are recoverable at per-currency
//! granularity during initialization; data-integrity failures are surfaced to
//! the caller; an out-of-range query date is a typed, recoverable error
//! rather than a fatal assertion.

use vstd::prelude::*;

verus! {

/// Everything that can go wrong inside the engine or at its edges.
#[derive(Clone, Copy, Debug, PartialEq, Eq, Structural)]
pub enum ExchangeError {
    /// The remote feed could not be reached or did not answer usably.
    /// Recoverable: fall back to cached data or retry.
    SourceUnavailable,
    /// No cached series exists yet for the currency. Expected on first run;
    /// the caller performs a full-history fetch instead of a refresh.
    CacheMiss,
    /// A series that must carry at least one observation carries none.
    EmptySeries,
    /// A date column that must carry at least one date carries none.
    EmptyColumn,
    /// A cache file or feed response does not follow its format.
    MalformedData,
    /// A currency code in a ledger row names no supported currency.
    UnknownCurrency,
    /// No rate series is loaded for the queried currency.
    SeriesNotFound,
    /// The query date lies outside the cached span of the series.
    DateOutOfRange,
    /// The date is inside the cached span and still has no row.
    /// Cannot happen on a gap-free series; checked defensively.
    MissingDate,
}

impl ExchangeError {
    /// A short human-readable description.
    pub fn text(&self) -> (r: &'static str)
        ensures
            r@ == self.text_spec(),
    {
        match self {
            ExchangeError::SourceUnavailable => "the rate source is unavailable",
            ExchangeError::CacheMiss => "no cached series exists for the currency",
            ExchangeError::EmptySeries => "the series has no observations",
            ExchangeError::EmptyColumn => "the date column is empty",
            ExchangeError::MalformedData => "the data does not follow its format",
            ExchangeError::UnknownCurrency => "the currency code is not supported",
            ExchangeError::SeriesNotFound => "no rate series is loaded for the currency",
            ExchangeError::DateOutOfRange => "the date lies outside the cached span",
            ExchangeError::MissingDate => "the date has no row despite being in range",
        }
    }

    /// What `text` returns, as a sequence of characters.
    pub open spec fn text_spec(&self) -> Seq<char> {
        match self {
            ExchangeError::SourceUnavailable => "the rate source is unavailable"@,
            ExchangeError::CacheMiss => "no cached series exists for the currency"@,
            ExchangeError::EmptySeries => "the series has no observations"@,
            ExchangeError::EmptyColumn => "the date column is empty"@,
            ExchangeError::MalformedData => "the data does not follow its format"@,
            ExchangeError::UnknownCurrency => "the currency code is not supported"@,
            ExchangeError::SeriesNotFound => "no rate series is loaded for the currency"@,
            ExchangeError::DateOutOfRange => "the date lies outside the cached span"@,
            ExchangeError::MissingDate => "the date has no row despite being in range"@,
        }
    }
}

} // verus!
