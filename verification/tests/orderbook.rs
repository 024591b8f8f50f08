use std::collections::{BTreeMap, VecDeque};

use data_parsing::{split_lines, L3Quote, OrderBook, PricedQuote, Quotes, QuotesEnum, Tick};

const BAD_STRING: &str = "Bad string found. Check the inputs.";

/// Reads one JSON market-data line into a tick on the price grid whose
/// inverse step is `price_step_inv`; panics on a line that is not a tick.
fn tick_from_json(line: &str, price_step_inv: f64) -> Tick {
    let v: serde_json::Value = serde_json::from_str(line).unwrap();
    let text = |field: &str| v[field].as_str().unwrap().to_string();
    let priced = |q: &serde_json::Value| {
        let price = q["price"].as_f64().unwrap();
        PricedQuote {
            price_key: (price * price_step_inv) as i64,
            quote: L3Quote {
                id: q["id"].as_i64().unwrap(),
                price_bits: price.to_bits(),
                size_bits: q["size"].as_f64().unwrap().to_bits(),
            },
        }
    };
    let quotes = match &v["quotes"] {
        serde_json::Value::Array(items) => {
            QuotesEnum::Vec(items.iter().map(|s| s.as_str().unwrap().to_string()).collect())
        }
        q => QuotesEnum::Quotes(Quotes {
            added: q["added"].as_array().unwrap().iter().map(priced).collect(),
            changed: q["changed"].as_array().unwrap().iter().map(priced).collect(),
            deleted: q["deleted"].as_array().unwrap().iter().map(|d| d.as_i64().unwrap()).collect(),
        }),
    };
    Tick {
        date: text("date"),
        instrument: text("instrument"),
        tick_type: text("type"),
        side: text("side"),
        quotes,
    }
}

fn ticks_from_text(text: &str, price_step_inv: f64) -> Vec<Tick> {
    split_lines(text).iter().map(|l| tick_from_json(l, price_step_inv)).collect()
}

fn book_from_str(json: &str, price_step: f64) -> Result<OrderBook, String> {
    let price_step_inv = 1. / price_step;
    let ticks = ticks_from_text(json, price_step_inv);
    Ok(OrderBook::from_ticks(&ticks, price_step.to_bits(), price_step_inv.to_bits()).expect(BAD_STRING))
}

fn quote(id: i64, price: f64, size: f64) -> L3Quote {
    L3Quote { id, price_bits: price.to_bits(), size_bits: size.to_bits() }
}

#[test]
fn orderbook_create_from_str() {
    let price_step: f64 = 0.0025;
    let price_step_inv: f64 = 400.0;

    let info: String = format!("{}\n{}", r#"{"instrument":"BTCUSD","type":"INCREMENT","date":"2019-01-01T00:00:00.000Z","side":"BID","quotes":{"added":[{"id":1,"price":4000.0,"size":1.05}],"changed":[],"deleted":[]}}"#, r#"{"instrument":"BTCUSD","type":"INCREMENT","date":"2019-01-01T00:00:00.000Z","side":"ASK","quotes":{"added":[{"id":2,"price":3000.0,"size":1.10}],"changed":[],"deleted":[]}}"#);
    let info: &str = &info;

    let mut bid_expected: BTreeMap<i64, VecDeque<L3Quote>> = BTreeMap::new();
    let mut ask_expected: BTreeMap<i64, VecDeque<L3Quote>> = BTreeMap::new();

    bid_expected.insert((4000.0 * price_step_inv) as i64, vec![quote(1, 4000.0, 1.05)].into_iter().collect());
    ask_expected.insert((3000.0 * price_step_inv) as i64, vec![quote(2, 3000.0, 1.10)].into_iter().collect());

    let orderbook = book_from_str(info, price_step).expect("Failed to create orderbook");

    assert_eq!(orderbook.instrument, "BTCUSD".to_string());
    assert_eq!(orderbook.price_step, price_step.to_bits());
    assert_eq!(orderbook.price_step_inv, price_step_inv.to_bits());
    assert_eq!(orderbook.date, "2019-01-01T00:00:00.000Z".to_string());
    assert_eq!(orderbook.bid, bid_expected);
    assert_eq!(orderbook.ask, ask_expected);
}

#[test]
fn orderbook_update_from_str() {
    let price_step: f64 = 0.0025;
    let price_step_inv: f64 = 400.0;

    let mut bid_expected: BTreeMap<i64, VecDeque<L3Quote>> = BTreeMap::new();
    let mut ask_expected: BTreeMap<i64, VecDeque<L3Quote>> = BTreeMap::new();
    let mut orderbook = OrderBook::new(price_step.to_bits(), (1. / price_step).to_bits());
    let update_from_string = |book: &mut OrderBook, lines: String| {
        let ticks = ticks_from_text(&lines, 1. / price_step);
        book.update_from_ticks(&ticks).map(|_| ())
    };

    let info1: &str = r#"{"instrument":"BTCUSD","type":"INCREMENT","date":"2019-01-01T00:00:00.000Z","side":"BID","quotes":{"added":[{"id":1,"price":4001.0,"size":1.05}],"changed":[],"deleted":[]}}"#;
    let info2: &str = r#"{"instrument":"BTCUSD","type":"INCREMENT","date":"2019-01-01T00:00:00.000Z","side":"ASK","quotes":{"added":[{"id":2,"price":4002.0,"size":1.10}],"changed":[],"deleted":[]}}"#;

    bid_expected.insert((4001.0 * price_step_inv) as i64, VecDeque::from([quote(1, 4001.0, 1.05)]));
    ask_expected.insert((4002.0 * price_step_inv) as i64, VecDeque::from([quote(2, 4002.0, 1.10)]));

    update_from_string(&mut orderbook, info1.to_string()).expect(BAD_STRING);
    update_from_string(&mut orderbook, info2.to_string()).expect(BAD_STRING);

    assert_eq!(orderbook.instrument, "BTCUSD".to_string());
    assert_eq!(orderbook.price_step, price_step.to_bits());
    assert_eq!(orderbook.price_step_inv, price_step_inv.to_bits());
    assert_eq!(orderbook.date, "2019-01-01T00:00:00.000Z".to_string());
    assert_eq!(orderbook.bid, bid_expected);
    assert_eq!(orderbook.ask, ask_expected);

    let info3: &str = r#"{"instrument":"BTCUSD","type":"INCREMENT","date":"2019-01-01T00:00:00.000Z","side":"BID","quotes":{"added":[{"id":3,"price":4003.0,"size":1.05}],"changed":[],"deleted":[]}}"#;
    let info4: &str = r#"{"instrument":"BTCUSD","type":"INCREMENT","date":"2019-01-01T00:00:00.000Z","side":"ASK","quotes":{"added":[{"id":4,"price":4004.0,"size":1.10}],"changed":[],"deleted":[]}}"#;

    bid_expected.insert((4003.0 * price_step_inv) as i64, VecDeque::from([quote(3, 4003.0, 1.05)]));
    ask_expected.insert((4004.0 * price_step_inv) as i64, VecDeque::from([quote(4, 4004.0, 1.10)]));

    update_from_string(&mut orderbook, info3.to_string()).expect(BAD_STRING);
    update_from_string(&mut orderbook, info4.to_string()).expect(BAD_STRING);

    assert_eq!(orderbook.instrument, "BTCUSD".to_string());
    assert_eq!(orderbook.price_step, price_step.to_bits());
    assert_eq!(orderbook.price_step_inv, price_step_inv.to_bits());
    assert_eq!(orderbook.date, "2019-01-01T00:00:00.000Z".to_string());
    assert_eq!(orderbook.bid, bid_expected);
    assert_eq!(orderbook.ask, ask_expected);

    let info5: &str = r#"{"instrument":"BTCUSD","type":"INCREMENT","date":"2019-01-01T00:00:00.000Z","side":"BID","quotes":{"added":[],"changed":[{"id":3,"price":4003.0,"size":1.06}],"deleted":[]}}"#;
    let info6: &str = r#"{"instrument":"BTCUSD","type":"INCREMENT","date":"2019-01-01T00:00:00.000Z","side":"ASK","quotes":{"added":[],"changed":[{"id":4,"price":4004.0,"size":1.11}],"deleted":[]}}"#;

    bid_expected.entry((4003.0 * price_step_inv) as i64).and_modify(|v| v[0].size_bits = 1.06f64.to_bits());
    ask_expected.entry((4004.0 * price_step_inv) as i64).and_modify(|v| v[0].size_bits = 1.11f64.to_bits());

    update_from_string(&mut orderbook, info5.to_string()).expect(BAD_STRING);
    update_from_string(&mut orderbook, info6.to_string()).expect(BAD_STRING);

    assert_eq!(orderbook.instrument, "BTCUSD".to_string());
    assert_eq!(orderbook.price_step, price_step.to_bits());
    assert_eq!(orderbook.price_step_inv, price_step_inv.to_bits());
    assert_eq!(orderbook.date, "2019-01-01T00:00:00.000Z".to_string());
    assert_eq!(orderbook.bid, bid_expected);
    assert_eq!(orderbook.ask, ask_expected);
}

#[test]
fn orderbook_create_non_increment() {
    let info: &str = r#"{"instrument":"BTCUSD","type":"SNAPSHOT","date":"2019-01-01T00:00:00.000Z","side":"BID","quotes":[]}"#;
    let _orderbook = book_from_str(info, 0.0025).expect("Failed to create orderbook from string");
}

#[test]
#[should_panic]
fn orderbook_create_from_incorrect_json() {
    let price_step: f64 = 0.0025;
    let info: &str = r#"{"instrumeent":"BTCUSD","type":"INCREMENT","date":"2019-01-01T00:00:00.000Z","side":"BID","quotes":{"added":[{"id":1,"price":4000.0,"size":1.05}],"changed":[],"deleted":[]}}"#;
    let _orderbook = book_from_str(info, price_step).expect("Failed to create orderbook from string");
}
