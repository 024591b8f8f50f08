use vstd::prelude::*;
use crate::quote::PricedQuote;

verus! {

/// The quote changes that an incremental tick carries for one side,
/// applied in this order: additions, changes, deletions (by id).
pub struct Quotes {
    pub added: Vec<PricedQuote>,
    pub changed: Vec<PricedQuote>,
    pub deleted: Vec<i64>,
}

/// What a tick carries: incremental quote changes, or a plain list
/// (as a snapshot message has), which leaves the levels untouched.
pub enum QuotesEnum {
    Quotes(Quotes),
    Vec(Vec<String>),
}

/// One market-data message, with its quotes already placed on the price grid.
pub struct Tick {
    pub date: String,
    pub instrument: String,
    pub tick_type: String,
    pub side: String,
    pub quotes: QuotesEnum,
}

} // verus!
