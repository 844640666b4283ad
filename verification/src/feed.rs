//! What the market-data source answers for one ticker.
use vstd::prelude::*;
use crate::price::{quote_of_text, Quote};

verus! {

/// One daily bar as the source transmits it: every field is text.
#[derive(Clone, Debug)]
pub struct KLine {
    pub open: String,
    pub high: String,
    pub low: String,
    pub close: String,
    pub volume: String,
    pub day: String,
}

/// What one request brought back.
#[derive(Clone, Debug)]
pub enum Observation {
    /// The request failed before any answer arrived.
    Unreachable { reason: String },
    /// An answer arrived. `bars` holds its daily bars, oldest first, or
    /// `None` where the body was not a list of bars.
    Answered { status: u16, bars: Option<Vec<KLine>> },
}

/// Whether the close of every bar is a quote.
pub open spec fn closes_are_quotes(bars: Seq<KLine>) -> bool {
    forall|i: int| 0 <= i < bars.len() ==> (#[trigger] quote_of_text(bars[i].close@)) is Some
}

/// The closing quotes of `bars`, one for each bar in their order; empty as
/// soon as one close is no quote.
pub open spec fn closing_series(bars: Seq<KLine>) -> Seq<Quote> {
    if closes_are_quotes(bars) {
        Seq::new(bars.len(), |i: int| quote_of_text(bars[i].close@).unwrap())
    } else {
        Seq::<Quote>::empty()
    }
}

/// The price series of an answer's body: the closing quotes of its bars,
/// empty where the body was not a list of bars.
pub open spec fn answered_series(bars: Option<Vec<KLine>>) -> Seq<Quote> {
    match bars {
        Some(list) => closing_series(list@),
        None => Seq::<Quote>::empty(),
    }
}

/// Reads the closing quote of every bar, oldest first. One close that is
/// no quote leaves the whole series empty.
pub fn closing_prices(bars: &Vec<KLine>) -> (quotes: Vec<Quote>)
    ensures
        quotes@ == closing_series(bars@),
{
    let mut quotes: Vec<Quote> = Vec::new();
    let mut i: usize = 0;
    while i < bars.len()
        invariant
            i <= bars.len(),
            quotes@.len() == i,
            forall|j: int|
                0 <= j < i ==> (#[trigger] quote_of_text(bars@[j].close@)) == Some(quotes@[j]),
        decreases bars.len() - i,
    {
        match Quote::parse(bars[i].close.as_str()) {
            None => {
                assert(quote_of_text(bars@[i as int].close@) is None);
                return Vec::new();
            },
            Some(quote) => {
                quotes.push(quote);
            },
        }
        i = i + 1;
    }
    assert(quotes@ =~= closing_series(bars@));
    quotes
}

/// The price series of an answer's body.
pub fn price_series(bars: &Option<Vec<KLine>>) -> (quotes: Vec<Quote>)
    ensures
        quotes@ == answered_series(*bars),
{
    match bars {
        Some(list) => closing_prices(list),
        None => Vec::new(),
    }
}

} // verus!
