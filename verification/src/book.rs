use vstd::prelude::*;
use vstd::string::StringExecFns;
use std::collections::{BTreeMap, VecDeque};
use vstd::std_specs::btree::increasing_seq;
use vstd::std_specs::iter::IteratorSpec;
use crate::order::lemma_increasing_keys;
use crate::side::{SideBook, clean_side, side_view, side_add_all, side_change_all, side_delete_all, side_clean, add_all, change_all, delete_all};
use crate::tick::{Quotes, QuotesEnum, Tick};
use crate::quote::{L3Quote, Side};
use crate::level::level_to_vec;

verus! {

/// The message of the error that a tick for another instrument gets.
pub const INSTRUMENT_MISMATCH: &'static str = "Instrument mismatch. Check the inputs.";

/// The order book of one instrument.
///
/// `price_step` and `price_step_inv` are the bit patterns of the price step
/// and of its inverse (`f64::to_bits`); a quote's price key is its price
/// times the inverse, truncated towards zero.
#[derive(Debug, PartialEq)]
pub struct OrderBook {
    pub instrument: String,
    pub date: String,
    pub bid: SideBook,
    pub ask: SideBook,
    pub price_step: u64,
    pub price_step_inv: u64,
}

/// What an order book holds, as mathematical values.
pub ghost struct BookModel {
    pub instrument: Seq<char>,
    pub date: Seq<char>,
    pub bid: Map<i64, Seq<L3Quote>>,
    pub ask: Map<i64, Seq<L3Quote>>,
    pub price_step: u64,
    pub price_step_inv: u64,
}

impl View for OrderBook {
    type V = BookModel;

    open spec fn view(&self) -> BookModel {
        BookModel {
            instrument: self.instrument@,
            date: self.date@,
            bid: side_view(self.bid),
            ask: side_view(self.ask),
            price_step: self.price_step,
            price_step_inv: self.price_step_inv,
        }
    }
}

/// Whether a tick's side text names the bid side; any other text means the ask side.
pub open spec fn is_bid_side(side: Seq<char>) -> bool {
    side == "BID"@
}

/// A book takes ticks for its own instrument, and for any instrument while
/// it has none yet.
pub open spec fn accepts_instrument(m: BookModel, instrument: Seq<char>) -> bool {
    m.instrument == instrument || m.instrument.len() == 0
}

/// The quote changes of one tick applied to one side.
pub open spec fn side_apply(s: Map<i64, Seq<L3Quote>>, q: Quotes) -> Map<i64, Seq<L3Quote>> {
    side_delete_all(side_change_all(side_add_all(s, q.added@), q.changed@), q.deleted@)
}

/// The book after one tick, or `None` when the tick is for another instrument.
pub open spec fn apply_tick(m: BookModel, t: Tick) -> Option<BookModel> {
    if !accepts_instrument(m, t.instrument@) {
        None
    } else {
        let stamped = BookModel {
            instrument: if m.instrument.len() == 0 { t.instrument@ } else { m.instrument },
            date: t.date@,
            ..m
        };
        match t.quotes {
            QuotesEnum::Quotes(q) => if is_bid_side(t.side@) {
                Some(BookModel { bid: side_apply(m.bid, q), ..stamped })
            } else {
                Some(BookModel { ask: side_apply(m.ask, q), ..stamped })
            },
            QuotesEnum::Vec(_) => Some(stamped),
        }
    }
}

/// The contents of one side of the book.
pub open spec fn side_of(m: BookModel, side: Side) -> Map<i64, Seq<L3Quote>> {
    match side {
        Side::BID => m.bid,
        Side::ASK => m.ask,
    }
}

/// `levels` lists the side `s` level by level, in increasing order of
/// price key, each level with its quotes oldest first.
pub open spec fn lists_levels(s: Map<i64, Seq<L3Quote>>, levels: Seq<(i64, Vec<L3Quote>)>) -> bool {
    &&& forall|i: int, j: int| 0 <= i < j < levels.len() ==> (#[trigger] levels[i]).0 < (#[trigger] levels[j]).0
    &&& forall|i: int| 0 <= i < levels.len() ==> s.contains_key((#[trigger] levels[i]).0)
        && levels[i].1@ == s[levels[i].0]
    &&& forall|k: i64| s.contains_key(k) ==> exists|i: int| 0 <= i < levels.len() && (#[trigger] levels[i]).0 == k
}

/// The book with the empty levels of both sides dropped.
pub open spec fn clean_model(m: BookModel) -> BookModel {
    BookModel { bid: side_clean(m.bid), ask: side_clean(m.ask), ..m }
}

/// The book after the ticks `ts` applied in order, or `None` when one of
/// them is for another instrument than the book has by then.
pub open spec fn apply_ticks(m: BookModel, ts: Seq<Tick>) -> Option<BookModel>
    decreases ts.len(),
{
    if ts.len() == 0 {
        Some(m)
    } else {
        match apply_ticks(m, ts.drop_last()) {
            Some(before) => apply_tick(before, ts.last()),
            None => None,
        }
    }
}

/// The empty book on the given price grid.
pub open spec fn empty_model(price_step: u64, price_step_inv: u64) -> BookModel {
    BookModel {
        instrument: Seq::empty(),
        date: Seq::empty(),
        bid: Map::empty(),
        ask: Map::empty(),
        price_step,
        price_step_inv,
    }
}

/// A side with no level.
fn new_side() -> (side: SideBook)
    ensures
        side_view(side) == Map::<i64, Seq<L3Quote>>::empty(),
{
    let side: SideBook = BTreeMap::new();
    assert(side_view(side) =~= Map::<i64, Seq<L3Quote>>::empty());
    side
}

/// Applies the quote changes of a tick to one side.
fn apply_quotes(side: &mut SideBook, q: &Quotes)
    ensures
        side_view(*final(side)) == side_apply(side_view(*old(side)), *q),
{
    add_all(side, &q.added);
    change_all(side, &q.changed);
    delete_all(side, &q.deleted);
}

impl OrderBook {
    /// An empty book with no instrument yet, on the given price grid.
    pub fn new(price_step: u64, price_step_inv: u64) -> (book: OrderBook)
        ensures
            book@ == empty_model(price_step, price_step_inv),
    {
        let book = OrderBook {
            instrument: String::new(),
            date: String::new(),
            bid: new_side(),
            ask: new_side(),
            price_step,
            price_step_inv,
        };
        assert(book@.instrument =~= Seq::<char>::empty());
        assert(book@.date =~= Seq::<char>::empty());
        book
    }

    /// Applies one tick. A tick for another instrument than the book's is
    /// refused with `INSTRUMENT_MISMATCH` and leaves the book as it was.
    pub fn update(&mut self, tick: &Tick) -> (r: Result<&mut OrderBook, String>)
        ensures
            match apply_tick(old(self)@, *tick) {
                Some(m) => r is Ok && (*r->Ok_0)@ == m && *final(self) == *final(r->Ok_0),
                None => r matches Err(e) && e@ == INSTRUMENT_MISMATCH@ && final(self)@ == old(self)@,
            },
    {
        let bid_name = String::from_str("BID");
        let is_bid = tick.side == bid_name;
        if self.instrument == tick.instrument || self.instrument.as_str().is_empty() {
            if self.instrument.as_str().is_empty() {
                self.instrument = tick.instrument.clone();
            }
            self.date = tick.date.clone();
            match &tick.quotes {
                QuotesEnum::Quotes(q) => {
                    if is_bid {
                        apply_quotes(&mut self.bid, q);
                    } else {
                        apply_quotes(&mut self.ask, q);
                    }
                },
                QuotesEnum::Vec(_) => {},
            }
            Ok(self)
        } else {
            Err(String::from_str(INSTRUMENT_MISMATCH))
        }
    }

    /// The levels of one side in increasing order of price key, each with
    /// its quotes oldest first.
    pub fn levels(&self, side: Side) -> (levels: Vec<(i64, Vec<L3Quote>)>)
        ensures
            lists_levels(side_of(self@, side), levels@),
    {
        let book_side: &SideBook = match side {
            Side::BID => &self.bid,
            Side::ASK => &self.ask,
        };
        let mut levels: Vec<(i64, Vec<L3Quote>)> = Vec::new();
        let entries = book_side.iter();
        let ghost pairs = entries.remaining();
        assert(increasing_seq(pairs.map_values(|kv: (&i64, &VecDeque<L3Quote>)| *kv.0)));
        for kv in it: entries
            invariant
                it.seq() == pairs,
                levels@.len() == it.index(),
                forall|j: int| 0 <= j < it.index() ==> (#[trigger] levels@[j]).0 == *it.seq()[j].0
                    && levels@[j].1@ == it.seq()[j].1@,
        {
            let (k, v) = kv;
            levels.push((*k, level_to_vec(v)));
        }
        let ghost keys = pairs.map_values(|kv: (&i64, &VecDeque<L3Quote>)| *kv.0);
        proof {
            lemma_increasing_keys(keys);
            assert forall|i: int, j: int| 0 <= i < j < levels@.len()
                implies (#[trigger] levels@[i]).0 < (#[trigger] levels@[j]).0 by {
                assert(keys[i] == *pairs[i].0 && keys[j] == *pairs[j].0);
            }
            assert forall|k: i64| side_of(self@, side).contains_key(k)
                implies exists|i: int| 0 <= i < levels@.len() && (#[trigger] levels@[i]).0 == k by {
                assert(book_side@.contains_key(k));
                assert(pairs.contains((&k, &book_side@[k])));
                let i = choose|i: int| 0 <= i < pairs.len() && pairs[i] == (&k, &book_side@[k]);
                assert(levels@[i].0 == k);
            }
        }
        assert(forall|i: int| 0 <= i < levels@.len() ==> side_of(self@, side).contains_key((#[trigger] levels@[i]).0));
        levels
    }

    /// Drops the empty levels of both sides.
    pub fn clean(&mut self)
        ensures
            final(self)@ == clean_model(old(self)@),
    {
        clean_side(&mut self.ask);
        clean_side(&mut self.bid);
    }

    /// Applies the ticks in order, then drops the empty levels. At the first
    /// tick for another instrument it stops with `INSTRUMENT_MISMATCH`: the
    /// ticks before it stay applied, and no level is dropped.
    pub fn update_from_ticks(&mut self, ticks: &Vec<Tick>) -> (r: Result<&mut OrderBook, String>)
        ensures
            match apply_ticks(old(self)@, ticks@) {
                Some(m) => r is Ok && (*r->Ok_0)@ == clean_model(m) && *final(self) == *final(r->Ok_0),
                None => r matches Err(e) && e@ == INSTRUMENT_MISMATCH@ && exists|j: int|
                    0 <= j < ticks@.len() && apply_ticks(old(self)@, ticks@.take(j)) == Some(final(self)@)
                        && apply_tick(final(self)@, #[trigger] ticks@[j]) is None,
            },
    {
        let ghost start = self@;
        let n = ticks.len();
        let mut i: usize = 0;
        while i < n
            invariant
                n == ticks@.len(),
                i <= n,
                start == old(self)@,
                apply_ticks(start, ticks@.take(i as int)) == Some(self@),
            decreases n - i,
        {
            assert(ticks@.take(i + 1).drop_last() =~= ticks@.take(i as int));
            match self.update(&ticks[i]) {
                Ok(_) => {},
                Err(e) => {
                    proof {
                        assert(apply_tick(self@, ticks@[i as int]) is None);
                        lemma_refused_prefix(start, ticks@, i as int);
                    }
                    return Err(e);
                },
            }
            i = i + 1;
        }
        assert(ticks@.take(n as int) =~= ticks@);
        self.clean();
        Ok(self)
    }

    /// A book on the given price grid built from the ticks, in order, with
    /// its empty levels dropped; refused with `INSTRUMENT_MISMATCH` when a
    /// tick is for another instrument than the ones before it.
    pub fn from_ticks(ticks: &Vec<Tick>, price_step: u64, price_step_inv: u64) -> (r: Result<OrderBook, String>)
        ensures
            match apply_ticks(empty_model(price_step, price_step_inv), ticks@) {
                Some(m) => r matches Ok(b) && b@ == clean_model(m),
                None => r matches Err(e) && e@ == INSTRUMENT_MISMATCH@,
            },
    {
        let mut book = OrderBook::new(price_step, price_step_inv);
        match book.update_from_ticks(ticks) {
            Ok(_) => Ok(book),
            Err(e) => Err(e),
        }
    }
}

/// When the ticks before index `i` apply and the one at `i` is refused,
/// the whole run is refused.
proof fn lemma_refused_prefix(m: BookModel, ts: Seq<Tick>, i: int)
    requires
        0 <= i < ts.len(),
        apply_ticks(m, ts.take(i)) is Some,
        apply_tick(apply_ticks(m, ts.take(i)).unwrap(), ts[i]) is None,
    ensures
        apply_ticks(m, ts) is None,
    decreases ts.len() - i,
{
    assert(ts.take(i + 1).drop_last() =~= ts.take(i));
    if i + 1 == ts.len() {
        assert(ts.take(i + 1) =~= ts);
    } else {
        lemma_refused_prefix_grows(m, ts, i + 1);
    }
}

/// A refused prefix makes every longer run refused.
proof fn lemma_refused_prefix_grows(m: BookModel, ts: Seq<Tick>, j: int)
    requires
        0 <= j <= ts.len(),
        apply_ticks(m, ts.take(j)) is None,
    ensures
        apply_ticks(m, ts) is None,
    decreases ts.len() - j,
{
    if j == ts.len() {
        assert(ts.take(j) =~= ts);
    } else {
        assert(ts.take(j + 1).drop_last() =~= ts.take(j));
        lemma_refused_prefix_grows(m, ts, j + 1);
    }
}

} // verus!
