use std::collections::{BTreeMap, VecDeque};

use data_parsing::level::{level_to_vec, retain_other_ids};
use data_parsing::{
    split_lines, L3Quote, OrderBook, PricedQuote, Quotes, QuotesEnum, Side, Tick, INSTRUMENT_MISMATCH,
};

fn q(id: i64, size: u64) -> L3Quote {
    L3Quote { id, price_bits: 7, size_bits: size }
}

fn pq(key: i64, id: i64, size: u64) -> PricedQuote {
    PricedQuote { price_key: key, quote: q(id, size) }
}

fn tick(instrument: &str, side: &str, added: Vec<PricedQuote>, changed: Vec<PricedQuote>, deleted: Vec<i64>) -> Tick {
    Tick {
        date: format!("d-{}", instrument),
        instrument: instrument.to_string(),
        tick_type: "INCREMENT".to_string(),
        side: side.to_string(),
        quotes: QuotesEnum::Quotes(Quotes { added, changed, deleted }),
    }
}

fn levels_of(pairs: Vec<(i64, Vec<L3Quote>)>) -> BTreeMap<i64, VecDeque<L3Quote>> {
    pairs.into_iter().map(|(k, v)| (k, v.into_iter().collect())).collect()
}

#[test]
fn new_book_is_empty() {
    let book = OrderBook::new(11, 22);
    assert_eq!(book.instrument, "");
    assert_eq!(book.date, "");
    assert!(book.bid.is_empty() && book.ask.is_empty());
    assert_eq!((book.price_step, book.price_step_inv), (11, 22));
}

#[test]
fn add_queues_at_back_of_level() {
    let mut book = OrderBook::new(0, 0);
    book.update(&tick("X", "BID", vec![pq(10, 1, 1), pq(20, 2, 2), pq(10, 3, 3)], vec![], vec![])).unwrap();
    assert_eq!(book.bid, levels_of(vec![(10, vec![q(1, 1), q(3, 3)]), (20, vec![q(2, 2)])]));
    assert!(book.ask.is_empty());
    assert_eq!(book.instrument, "X");
    assert_eq!(book.date, "d-X");
}

#[test]
fn change_leaves_one_quote_with_the_id() {
    let mut book = OrderBook::new(0, 0);
    book.update(&tick("X", "ASK", vec![pq(10, 5, 1), pq(20, 5, 2), pq(20, 6, 3)], vec![], vec![])).unwrap();
    book.update(&tick("X", "ASK", vec![], vec![pq(20, 5, 9)], vec![])).unwrap();
    // The level emptied by the change stays until the book is cleaned.
    assert_eq!(book.ask, levels_of(vec![(10, vec![]), (20, vec![q(6, 3), q(5, 9)])]));
    assert!(book.bid.is_empty());
}

#[test]
fn delete_removes_every_quote_with_the_id() {
    let mut book = OrderBook::new(0, 0);
    book.update(&tick("X", "BID", vec![pq(1, 5, 1), pq(2, 5, 2), pq(2, 6, 3)], vec![], vec![5])).unwrap();
    assert_eq!(book.bid, levels_of(vec![(1, vec![]), (2, vec![q(6, 3)])]));
}

#[test]
fn delete_of_absent_id_changes_nothing() {
    let mut book = OrderBook::new(0, 0);
    book.update(&tick("X", "BID", vec![pq(1, 5, 1)], vec![], vec![])).unwrap();
    let before = book.bid.clone();
    book.update(&tick("X", "BID", vec![], vec![], vec![42])).unwrap();
    assert_eq!(book.bid, before);
}

#[test]
fn foreign_instrument_is_refused_and_book_unchanged() {
    let mut book = OrderBook::new(0, 0);
    book.update(&tick("X", "BID", vec![pq(1, 5, 1)], vec![], vec![])).unwrap();
    let r = book.update(&tick("Y", "BID", vec![pq(2, 6, 1)], vec![], vec![]));
    assert_eq!(r.err(), Some(INSTRUMENT_MISMATCH.to_string()));
    assert_eq!(book.instrument, "X");
    assert_eq!(book.date, "d-X");
    assert_eq!(book.bid, levels_of(vec![(1, vec![q(5, 1)])]));
}

#[test]
fn snapshot_tick_changes_no_level() {
    let mut book = OrderBook::new(0, 0);
    book.update(&tick("X", "BID", vec![pq(1, 5, 1)], vec![], vec![])).unwrap();
    let snapshot = Tick {
        date: "later".to_string(),
        instrument: "X".to_string(),
        tick_type: "SNAPSHOT".to_string(),
        side: "BID".to_string(),
        quotes: QuotesEnum::Vec(vec![]),
    };
    book.update(&snapshot).unwrap();
    assert_eq!(book.date, "later");
    assert_eq!(book.bid, levels_of(vec![(1, vec![q(5, 1)])]));
}

#[test]
fn any_side_text_but_bid_is_the_ask_side() {
    let mut book = OrderBook::new(0, 0);
    book.update(&tick("X", "bid", vec![pq(1, 5, 1)], vec![], vec![])).unwrap();
    assert!(book.bid.is_empty());
    assert_eq!(book.ask, levels_of(vec![(1, vec![q(5, 1)])]));
}

#[test]
fn update_returns_the_book_for_chaining() {
    let mut book = OrderBook::new(0, 0);
    book.update(&tick("X", "BID", vec![pq(1, 5, 1)], vec![], vec![]))
        .unwrap()
        .update(&tick("X", "ASK", vec![pq(2, 6, 1)], vec![], vec![]))
        .unwrap();
    assert_eq!(book.bid.len(), 1);
    assert_eq!(book.ask.len(), 1);
}

#[test]
fn update_from_ticks_drops_empty_levels() {
    let mut book = OrderBook::new(0, 0);
    let ticks = vec![
        tick("X", "BID", vec![pq(1, 5, 1), pq(2, 6, 1)], vec![], vec![]),
        tick("X", "BID", vec![], vec![], vec![5]),
    ];
    book.update_from_ticks(&ticks).unwrap();
    assert_eq!(book.bid, levels_of(vec![(2, vec![q(6, 1)])]));
}

#[test]
fn refused_run_keeps_the_accepted_prefix() {
    let mut book = OrderBook::new(0, 0);
    let ticks = vec![
        tick("X", "BID", vec![pq(1, 5, 1)], vec![], vec![5]),
        tick("Y", "BID", vec![pq(2, 6, 1)], vec![], vec![]),
        tick("X", "BID", vec![pq(3, 7, 1)], vec![], vec![]),
    ];
    let r = book.update_from_ticks(&ticks).map(|_| ());
    assert_eq!(r, Err(INSTRUMENT_MISMATCH.to_string()));
    // The first tick stays applied, and its emptied level is not dropped.
    assert_eq!(book.bid, levels_of(vec![(1, vec![])]));
    assert_eq!(book.instrument, "X");
}

#[test]
fn from_ticks_refuses_mixed_instruments() {
    let ticks = vec![
        tick("X", "BID", vec![pq(1, 5, 1)], vec![], vec![]),
        tick("Y", "BID", vec![pq(2, 6, 1)], vec![], vec![]),
    ];
    assert_eq!(OrderBook::from_ticks(&ticks, 1, 2).err(), Some(INSTRUMENT_MISMATCH.to_string()));
    let ok = OrderBook::from_ticks(&ticks[..1].to_vec_ticks(), 1, 2).unwrap();
    assert_eq!(ok.bid, levels_of(vec![(1, vec![q(5, 1)])]));
}

trait ToVecTicks {
    fn to_vec_ticks(&self) -> Vec<Tick>;
}

impl ToVecTicks for [Tick] {
    fn to_vec_ticks(&self) -> Vec<Tick> {
        self.iter().map(|t| Tick {
            date: t.date.clone(),
            instrument: t.instrument.clone(),
            tick_type: t.tick_type.clone(),
            side: t.side.clone(),
            quotes: match &t.quotes {
                QuotesEnum::Quotes(q) => QuotesEnum::Quotes(Quotes {
                    added: q.added.clone(),
                    changed: q.changed.clone(),
                    deleted: q.deleted.clone(),
                }),
                QuotesEnum::Vec(v) => QuotesEnum::Vec(v.clone()),
            },
        }).collect()
    }
}

#[test]
fn runs_compose_like_one_run() {
    let all = vec![
        tick("X", "BID", vec![pq(1, 5, 1), pq(2, 6, 1)], vec![], vec![]),
        tick("X", "BID", vec![], vec![], vec![5]),
        tick("X", "BID", vec![pq(1, 8, 2)], vec![pq(1, 6, 3)], vec![]),
        tick("X", "ASK", vec![pq(9, 9, 9)], vec![], vec![]),
    ];
    let one = OrderBook::from_ticks(&all, 0, 0).unwrap();
    let mut two = OrderBook::new(0, 0);
    two.update_from_ticks(&all[..2].to_vec_ticks()).unwrap();
    two.update_from_ticks(&all[2..].to_vec_ticks()).unwrap();
    assert_eq!(one, two);
    assert_eq!(one.bid, levels_of(vec![(1, vec![q(8, 2), q(6, 3)])]));
}

#[test]
fn levels_are_listed_in_increasing_key_order() {
    let mut book = OrderBook::new(0, 0);
    book.update(&tick("X", "ASK", vec![pq(30, 1, 1), pq(-5, 2, 1), pq(10, 3, 1), pq(10, 4, 1)], vec![], vec![])).unwrap();
    let levels = book.levels(Side::ASK);
    assert_eq!(levels, vec![(-5, vec![q(2, 1)]), (10, vec![q(3, 1), q(4, 1)]), (30, vec![q(1, 1)])]);
    assert!(book.levels(Side::BID).is_empty());
}

#[test]
fn side_names() {
    assert_eq!(Side::BID.name(), "BID");
    assert_eq!(Side::ASK.name(), "ASK");
}

#[test]
fn level_helpers() {
    let level: VecDeque<L3Quote> = vec![q(1, 1), q(2, 2), q(1, 3)].into_iter().collect();
    let kept = retain_other_ids(&level, 1);
    assert_eq!(kept, VecDeque::from(vec![q(2, 2)]));
    assert_eq!(level_to_vec(&level), vec![q(1, 1), q(2, 2), q(1, 3)]);
}

#[test]
fn split_lines_pieces() {
    assert_eq!(split_lines(""), vec![String::new()]);
    assert_eq!(split_lines("ab"), vec!["ab".to_string()]);
    assert_eq!(split_lines("a\nbc\n"), vec!["a".to_string(), "bc".to_string(), String::new()]);
    assert_eq!(split_lines("\n\nx"), vec![String::new(), String::new(), "x".to_string()]);
    let text = "é\nünï\n\ncode";
    assert_eq!(split_lines(text).join("\n"), text);
    assert_eq!(split_lines(text), text.split('\n').map(|s| s.to_string()).collect::<Vec<_>>());
}

#[test]
fn clean_twice_is_clean_once() {
    let mut book = OrderBook::new(0, 0);
    book.update(&tick("X", "BID", vec![pq(1, 5, 1), pq(2, 6, 1)], vec![], vec![5])).unwrap();
    book.clean();
    assert_eq!(book.bid, levels_of(vec![(2, vec![q(6, 1)])]));
    let mut again = OrderBook::new(0, 0);
    again.update(&tick("X", "BID", vec![pq(1, 5, 1), pq(2, 6, 1)], vec![], vec![5])).unwrap();
    again.clean();
    again.clean();
    assert_eq!(book, again);
}

#[test]
fn quotes_compare_prices_and_sizes_as_doubles() {
    let a = L3Quote { id: 1, price_bits: 0.0f64.to_bits(), size_bits: 2.0f64.to_bits() };
    let b = L3Quote { id: 1, price_bits: (-0.0f64).to_bits(), size_bits: 2.0f64.to_bits() };
    assert_eq!(a, b);
    let nan = L3Quote { id: 1, price_bits: f64::NAN.to_bits(), size_bits: 2.0f64.to_bits() };
    assert_ne!(nan, nan);
    assert_ne!(a, L3Quote { id: 2, ..a });
    assert_ne!(a, L3Quote { size_bits: 3.0f64.to_bits(), ..a });
    assert!(data_parsing::quote::doubles_equal(0.0f64.to_bits(), (-0.0f64).to_bits()));
    assert!(!data_parsing::quote::doubles_equal(1.0f64.to_bits(), 2.0f64.to_bits()));
}
