use std::collections::VecDeque;

use data_parsing::split_lines;
use data_parsing::text_book::{read_text_book, TextKeyedBook};
use data_parsing::L3Quote;

fn q(id: i64, price: f64, size: f64) -> L3Quote {
    L3Quote { id, price_bits: price.to_bits(), size_bits: size.to_bits() }
}

fn line(side: &str, added: &str, changed: &str, deleted: &str) -> String {
    format!(
        r#"{{"instrument":"USD","type":"INCREMENT","date":"d","side":{},"quotes":{{"added":[{}],"changed":[{}],"deleted":[{}]}}}}"#,
        side, added, changed, deleted
    )
}

fn level(key: &str, quotes: Vec<L3Quote>) -> (String, VecDeque<L3Quote>) {
    (key.to_string(), quotes.into_iter().collect())
}

fn read(lines: Vec<String>) -> Option<TextKeyedBook> {
    read_text_book(&lines)
}

#[test]
fn text_book_adds_changes_and_deletes() {
    let book = read(vec![
        line(r#""BID""#, r#"{"id":1,"price":4000.0,"size":1.5},{"id":2,"price":4000.5,"size":2.0}"#, "", ""),
        line(r#""BID""#, r#"{"id":3,"price":4000.0,"size":3.0}"#, r#"{"id":1,"price":4000.5,"size":1.25}"#, ""),
        line(r#""ASK""#, r#"{"id":9,"price":4001.0,"size":1.0}"#, "", ""),
        line(r#""ASK""#, "", "", "9"),
    ])
    .unwrap();
    assert_eq!(book.bid, vec![
        level("4000", vec![q(3, 4000.0, 3.0)]),
        level("4000.5", vec![q(2, 4000.5, 2.0), q(1, 4000.5, 1.25)]),
    ]);
    // The ask level emptied by the deletion is dropped at the end.
    assert!(book.ask.is_empty());
}

#[test]
fn text_book_side_other_than_bid_is_ask() {
    let book = read(vec![line(r#""bid""#, r#"{"id":1,"price":2.0,"size":1.0}"#, "", "")]).unwrap();
    assert!(book.bid.is_empty());
    assert_eq!(book.ask, vec![level("2", vec![q(1, 2.0, 1.0)])]);
}

#[test]
fn text_book_missing_lists_are_empty() {
    let l = r#"{"side":"BID","quotes":{"added":[{"id":1,"price":5.0,"size":1.0}]}}"#.to_string();
    let book = read(vec![l]).unwrap();
    assert_eq!(book.bid, vec![level("5", vec![q(1, 5.0, 1.0)])]);
}

#[test]
fn text_book_refuses_bad_lines() {
    assert!(read(vec!["not json".to_string()]).is_none());
    // The side's JSON text "5" is too short to cut bytes 1 to 3 out of.
    assert!(read(vec![line("5", "", "", "")]).is_none());
    // The cut would fall inside the euro sign.
    assert!(read(vec![line(r#""B€""#, "", "", "")]).is_none());
    assert!(read(vec![line(r#""BID""#, r#"{"id":1,"price":2.0}"#, "", "")]).is_none());
    assert!(read(vec![line(r#""BID""#, "", "", r#""x""#)]).is_none());
    assert!(read(vec![line(r#""BID""#, "", "", ""), "{".to_string()]).is_none());
}

#[test]
fn text_book_of_no_lines_is_empty() {
    let book = read(vec![]).unwrap();
    assert!(book.bid.is_empty() && book.ask.is_empty());
}

#[test]
fn split_of_joined_texts() {
    let a = "x\ny";
    let b = "\nz";
    let mut pieces = split_lines(a);
    pieces.extend(split_lines(b));
    assert_eq!(split_lines(&format!("{}\n{}", a, b)), pieces);
    let parts = vec!["p".to_string(), String::new(), "q r".to_string()];
    assert_eq!(split_lines(&parts.join("\n")), parts);
}

#[test]
fn text_book_levels_in_price_text_order() {
    let book = read(vec![
        line(r#""ASK""#, r#"{"id":1,"price":4001.0,"size":1.0}"#, "", ""),
        line(r#""ASK""#, r#"{"id":2,"price":400.0,"size":1.0},{"id":3,"price":5.0,"size":1.0}"#, "", ""),
        line(r#""ASK""#, r#"{"id":4,"price":39.5,"size":1.0}"#, "", ""),
    ])
    .unwrap();
    let keys: Vec<&str> = book.ask.iter().map(|(k, _)| k.as_str()).collect();
    assert_eq!(keys, vec!["39.5", "400", "4001", "5"]);
}

#[test]
fn text_book_merges_instruments() {
    let other = r#"{"instrument":"EUR","type":"X","date":"e","side":"BID","quotes":{"added":[{"id":2,"price":1.0,"size":1.0}],"changed":[],"deleted":[]}}"#;
    let book = read(vec![line(r#""BID""#, r#"{"id":1,"price":1.0,"size":1.0}"#, "", ""), other.to_string()]).unwrap();
    assert_eq!(book.bid, vec![level("1", vec![q(1, 1.0, 1.0), q(2, 1.0, 1.0)])]);
}
