//! The closed set of supported currencies.
//!
//! One designated value is the base currency: every rate series is stored for
//! the pair (foreign, base), and the base-to-base rate is 1 by definition,
//! never looked up.

use vstd::prelude::*;
use vstd::string::StringExecFns;

verus! {

/// A supported ISO-like currency code.
#[derive(Clone, Copy, Debug, PartialEq, Eq, Structural)]
pub enum Currency {
    EUR,
    USD,
    GBP,
    CHF,
}

/// The fixed base currency, chosen at build time and never stored as a series.
pub const BASE_CURRENCY: Currency = Currency::EUR;

impl Currency {
    /// The three-letter code of the currency, as a sequence of characters.
    pub open spec fn code_spec(self) -> Seq<char> {
        match self {
            Currency::EUR => "EUR"@,
            Currency::USD => "USD"@,
            Currency::GBP => "GBP"@,
            Currency::CHF => "CHF"@,
        }
    }

    /// The three-letter code of the currency.
    pub fn code(self) -> (r: &'static str)
        ensures
            r@ == self.code_spec(),
    {
        match self {
            Currency::EUR => "EUR",
            Currency::USD => "USD",
            Currency::GBP => "GBP",
            Currency::CHF => "CHF",
        }
    }

    /// Which currency, if any, a piece of text names.
    pub open spec fn from_code_spec(s: Seq<char>) -> Option<Currency> {
        if s == "EUR"@ {
            Some(Currency::EUR)
        } else if s == "USD"@ {
            Some(Currency::USD)
        } else if s == "GBP"@ {
            Some(Currency::GBP)
        } else if s == "CHF"@ {
            Some(Currency::CHF)
        } else {
            None
        }
    }

    /// Parses a currency code; `None` exactly when the text names no
    /// supported currency.
    pub fn from_code(s: &String) -> (r: Option<Currency>)
        ensures
            r == Self::from_code_spec(s@),
    {
        if *s == String::from_str("EUR") {
            Some(Currency::EUR)
        } else if *s == String::from_str("USD") {
            Some(Currency::USD)
        } else if *s == String::from_str("GBP") {
            Some(Currency::GBP)
        } else if *s == String::from_str("CHF") {
            Some(Currency::CHF)
        } else {
            None
        }
    }

    /// Every supported currency, the base included, in a fixed order.
    pub open spec fn all_spec() -> Seq<Currency> {
        seq![Currency::EUR, Currency::USD, Currency::GBP, Currency::CHF]
    }

    /// Every supported currency, the base included, in a fixed order.
    pub fn all() -> (r: Vec<Currency>)
        ensures
            r@ == Self::all_spec(),
    {
        let r: Vec<Currency> = vec![Currency::EUR, Currency::USD, Currency::GBP, Currency::CHF];
        assert(r@ =~= Self::all_spec());
        r
    }

    /// Every supported currency but the base, in a fixed order: the
    /// currencies for which a rate series exists.
    pub open spec fn non_base_spec() -> Seq<Currency> {
        seq![Currency::USD, Currency::GBP, Currency::CHF]
    }

    /// Every supported currency but the base, in a fixed order.
    pub fn non_base() -> (r: Vec<Currency>)
        ensures
            r@ == Self::non_base_spec(),
            forall|i: int| 0 <= i < r@.len() ==> r@[i] != BASE_CURRENCY,
    {
        let r: Vec<Currency> = vec![Currency::USD, Currency::GBP, Currency::CHF];
        assert(r@ =~= Self::non_base_spec());
        r
    }
}

} // verus!
