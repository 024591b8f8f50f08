//! An L3 (order-by-order) order book for one instrument, fed by
//! incremental market-data ticks.
//!
//! Each side of the book maps an integer price key (the price counted in
//! price steps) to the queue of quotes resting at that level, oldest first.
//! Ticks add quotes at the back of their level, move quotes (a change
//! removes every quote with that id from the side and queues the new one),
//! and delete quotes by id.
//!
//! `text_book` builds a second kind of book straight from JSON lines, its
//! levels keyed by the decimal text of the price, under the same rules.

pub mod quote;
pub mod level;
pub mod side;
pub mod tick;
pub mod book;
pub mod lines;
mod order;
pub mod laws;
pub mod text_key;
pub mod text_book;

pub use book::{OrderBook, BookModel, INSTRUMENT_MISMATCH};
pub use lines::split_lines;
pub use quote::{L3Quote, PricedQuote, Side};
pub use side::SideBook;
pub use tick::{Quotes, QuotesEnum, Tick};
