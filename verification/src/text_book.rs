use vstd::prelude::*;
use vstd::utf8::{encode_utf8, is_char_boundary};
use serde_json::Value;
use std::collections::VecDeque;
use crate::quote::L3Quote;
use crate::level::{level_without, retain_other_ids};
use crate::side::{side_add, side_remove_id, side_clean};
use crate::text_key::{key_lt, key_less, lemma_key_lt_order};
use crate::laws::{holds_once, side_without_ids, lemma_change_holds_new, lemma_change_keeps_held, lemma_without_ids_push, lemma_filter_all};

verus! {

/// One side of a book whose levels are keyed by the decimal text of the
/// price: its levels listed in strictly increasing order of price text.
pub type TextSide = Vec<(String, VecDeque<L3Quote>)>;

/// A quote of a JSON line as read: each field is absent when the JSON holds
/// no value of the right kind there. The price comes as its decimal text
/// (`f64::to_string`) together with its bit pattern.
pub struct TextQuote {
    pub id: Option<i64>,
    pub price: Option<(String, u64)>,
    pub size_bits: Option<u64>,
}

/// What a JSON market-data line holds for the text-keyed book: the JSON text
/// of its `side` field, and its `quotes` lists, each absent when the JSON holds
/// no array there.
pub struct TextLine {
    pub side_json: String,
    pub added: Option<Vec<TextQuote>>,
    pub changed: Option<Vec<TextQuote>>,
    pub deleted: Option<Vec<Option<i64>>>,
}

/// The fields of a JSON line, or `None` when the line is not JSON.
pub uninterp spec fn spec_text_line(line: Seq<char>) -> Option<TextLine>;

/// Reads a JSON line with `serde_json::from_str::<serde_json::Value>` and
/// takes out its fields: the `side` field rendered back to JSON text
/// (`Value::to_string`), and the `added`, `changed` and `deleted` arrays of
/// its `quotes` field (`as_array`), their quotes' `id` (`as_i64`), `price`
/// and `size` (`as_f64`, then `to_string` and `to_bits`). The contract only
/// names the result as a function of the line's text; what JSON the line
/// holds is not stated.
#[verifier::external_body]
fn parse_text_line(line: &str) -> (r: Option<TextLine>)
    ensures
        r == spec_text_line(line@),
{
    let v: Value = serde_json::from_str(line).ok()?;
    let quote = |x: &Value| TextQuote {
        id: x["id"].as_i64(),
        price: x["price"].as_f64().map(|p| (p.to_string(), p.to_bits())),
        size_bits: x["size"].as_f64().map(|s| s.to_bits()),
    };
    let quotes = |k: &str| v["quotes"][k].as_array().map(|a| a.iter().map(quote).collect());
    Some(TextLine {
        side_json: v["side"].to_string(),
        added: quotes("added"),
        changed: quotes("changed"),
        deleted: v["quotes"]["deleted"].as_array().map(|a| a.iter().map(Value::as_i64).collect()),
    })
}

/// The two sides of a book keyed by price text.
pub struct TextKeyedBook {
    pub bid: TextSide,
    pub ask: TextSide,
}

/// What a text-keyed book holds: price text to the queue at that level.
pub ghost struct TextBookModel {
    pub bid: Map<Seq<char>, Seq<L3Quote>>,
    pub ask: Map<Seq<char>, Seq<L3Quote>>,
}

/// No two levels of the list carry the same price text.
pub open spec fn distinct_keys(s: Seq<(String, VecDeque<L3Quote>)>) -> bool {
    forall|i: int, j: int| 0 <= i < j < s.len() ==> (#[trigger] s[i]).0@ != (#[trigger] s[j]).0@
}

/// The contents of a list of levels: each price text to its queue.
pub open spec fn text_side_view(s: Seq<(String, VecDeque<L3Quote>)>) -> Map<Seq<char>, Seq<L3Quote>>
    decreases s.len(),
{
    if s.len() == 0 {
        Map::empty()
    } else {
        text_side_view(s.drop_last()).insert(s.last().0@, s.last().1@)
    }
}

impl TextKeyedBook {
    /// Both sides list their levels in strictly increasing order of price
    /// text (the order of `String`), as a `BTreeMap` keyed by the text would.
    pub open spec fn wf(&self) -> bool {
        sorted_keys(self.bid@) && sorted_keys(self.ask@)
    }
}

impl View for TextKeyedBook {
    type V = TextBookModel;

    open spec fn view(&self) -> TextBookModel {
        TextBookModel { bid: text_side_view(self.bid@), ask: text_side_view(self.ask@) }
    }
}

/// The price texts present are those of the list's levels.
pub proof fn lemma_text_view_dom(s: Seq<(String, VecDeque<L3Quote>)>, k: Seq<char>)
    ensures
        text_side_view(s).contains_key(k) <==> exists|i: int| 0 <= i < s.len() && (#[trigger] s[i]).0@ == k,
    decreases s.len(),
{
    if s.len() > 0 {
        lemma_text_view_dom(s.drop_last(), k);
        if text_side_view(s.drop_last()).contains_key(k) {
            let i = choose|i: int| 0 <= i < s.drop_last().len() && (#[trigger] s.drop_last()[i]).0@ == k;
            assert(s[i] == s.drop_last()[i]);
        }
        assert forall|i: int| 0 <= i < s.len() - 1 implies #[trigger] s[i] == s.drop_last()[i] by {}
    }
}

/// The view of a list grown by one level is the view with that level inserted.
proof fn lemma_text_view_push(s: Seq<(String, VecDeque<L3Quote>)>, e: (String, VecDeque<L3Quote>))
    ensures
        text_side_view(s.push(e)) == text_side_view(s).insert(e.0@, e.1@),
{
    assert(s.push(e).drop_last() =~= s);
}

/// The view of the first `i + 1` levels.
proof fn lemma_text_view_take(s: Seq<(String, VecDeque<L3Quote>)>, i: int)
    requires
        0 <= i < s.len(),
    ensures
        text_side_view(s.take(i + 1)) == text_side_view(s.take(i)).insert(s[i].0@, s[i].1@),
        distinct_keys(s) ==> !text_side_view(s.take(i)).contains_key(s[i].0@),
{
    assert(s.take(i + 1).drop_last() =~= s.take(i));
    if distinct_keys(s) {
        lemma_text_view_dom(s.take(i), s[i].0@);
        if text_side_view(s.take(i)).contains_key(s[i].0@) {
            let j = choose|j: int| 0 <= j < s.take(i).len() && (#[trigger] s.take(i)[j]).0@ == s[i].0@;
            assert(s.take(i)[j] == s[j]);
        }
    }
}

/// The levels of the list are in strictly increasing order of price text.
pub open spec fn sorted_keys(s: Seq<(String, VecDeque<L3Quote>)>) -> bool {
    forall|i: int, j: int| 0 <= i < j < s.len() ==> key_lt((#[trigger] s[i]).0@, (#[trigger] s[j]).0@)
}

/// A list sorted by price text has distinct price texts.
pub proof fn lemma_sorted_distinct(s: Seq<(String, VecDeque<L3Quote>)>)
    requires
        sorted_keys(s),
    ensures
        distinct_keys(s),
{
    assert forall|i: int, j: int| 0 <= i < j < s.len() implies (#[trigger] s[i]).0@ != (#[trigger] s[j]).0@ by {
        lemma_key_lt_order(s[i].0@, s[j].0@, s[j].0@);
        if s[i].0@ == s[j].0@ {
            assert(key_lt(s[i].0@, s[j].0@));
        }
    }
}

/// Queues `q` at the back of the level keyed `key`; a new level is placed
/// where its price text falls in the order.
pub fn text_add(side: &mut TextSide, key: &String, q: L3Quote)
    requires
        sorted_keys(old(side)@),
    ensures
        sorted_keys(final(side)@),
        text_side_view(final(side)@) == side_add(text_side_view(old(side)@), key@, q),
{
    let ghost s = side@;
    proof {
        lemma_sorted_distinct(s);
    }
    let mut out: TextSide = Vec::new();
    let mut placed = false;
    let n = side.len();
    let mut i: usize = 0;
    while i < n
        invariant
            n == s.len(),
            s == side@,
            i <= n,
            sorted_keys(s),
            distinct_keys(s),
            sorted_keys(out@),
            forall|a: int, j: int| #![trigger out@[a], s[j]] 0 <= a < out@.len() && i <= j < n ==> key_lt(out@[a].0@, s[j].0@),
            placed ==> text_side_view(out@) == side_add(text_side_view(s.take(i as int)), key@, q),
            placed ==> forall|j: int| i <= j < n ==> (#[trigger] s[j]).0@ != key@,
            !placed ==> text_side_view(out@) == text_side_view(s.take(i as int)),
            !placed ==> forall|j: int| 0 <= j < i ==> (#[trigger] s[j]).0@ != key@,
            !placed ==> forall|a: int| 0 <= a < out@.len() ==> key_lt((#[trigger] out@[a]).0@, key@),
        decreases n - i,
    {
        proof {
            lemma_text_view_take(s, i as int);
            lemma_key_lt_order(key@, s[i as int].0@, s[i as int].0@);
            assert forall|j: int| i < j < n implies key_lt(s[i as int].0@, (#[trigger] s[j]).0@) by {}
        }
        let ghost v = text_side_view(s.take(i as int));
        let ghost prior = out@;
        let entry_key = side[i].0.clone();
        if !placed && side[i].0 == *key {
            let mut level = side[i].1.clone();
            level.push_back(q);
            proof {
                lemma_text_view_push(prior, (entry_key, level));
            }
            out.push((entry_key, level));
            placed = true;
            assert(text_side_view(out@) =~= side_add(text_side_view(s.take(i + 1)), key@, q));
        } else if !placed && key_less(key, &side[i].0) {
            let mut fresh: VecDeque<L3Quote> = VecDeque::new();
            fresh.push_back(q);
            let k = key.clone();
            proof {
                lemma_text_view_push(prior, (k, fresh));
            }
            out.push((k, fresh));
            let ghost mid = out@;
            let level = side[i].1.clone();
            proof {
                lemma_text_view_push(mid, (entry_key, level));
                assert forall|j: int| i <= j < n implies (#[trigger] s[j]).0@ != key@ by {
                    if j > i {
                        lemma_key_lt_order(key@, s[i as int].0@, s[j].0@);
                    }
                }
                assert forall|j: int| i < j < n implies key_lt(key@, (#[trigger] s[j]).0@) by {
                    lemma_key_lt_order(key@, s[i as int].0@, s[j].0@);
                }
            }
            proof {
                lemma_text_view_dom(s.take(i as int), key@);
                if text_side_view(s.take(i as int)).contains_key(key@) {
                    let j = choose|j: int| 0 <= j < s.take(i as int).len() && (#[trigger] s.take(i as int)[j]).0@ == key@;
                    assert(s.take(i as int)[j] == s[j]);
                }
                assert(!text_side_view(s.take(i + 1)).contains_key(key@));
            }
            out.push((entry_key, level));
            placed = true;
            assert(text_side_view(out@) =~= side_add(text_side_view(s.take(i + 1)), key@, q));
        } else {
            let level = side[i].1.clone();
            proof {
                lemma_text_view_push(prior, (entry_key, level));
                if !placed {
                    lemma_key_lt_order(s[i as int].0@, key@, key@);
                }
            }
            out.push((entry_key, level));
            if placed {
                assert(text_side_view(out@) =~= side_add(text_side_view(s.take(i + 1)), key@, q));
            } else {
                assert(text_side_view(out@) =~= text_side_view(s.take(i + 1)));
            }
        }
        proof {
            assert forall|a: int, b: int| 0 <= a < b < out@.len()
                implies key_lt((#[trigger] out@[a]).0@, (#[trigger] out@[b]).0@) by {
                if b >= prior.len() && a < prior.len() {
                    assert(out@[a] == prior[a]);
                }
            }
            assert forall|a: int, j: int| 0 <= a < out@.len() && i + 1 <= j < n
                implies #[trigger] key_lt(out@[a].0@, s[j].0@) by {
                if a < prior.len() {
                    assert(out@[a] == prior[a]);
                } else if out@[a].0@ != key@ || s[i as int].0@ == key@ {
                    assert(out@[a].0@ == s[i as int].0@);
                }
            }
        }
        i = i + 1;
    }
    assert(s.take(n as int) =~= s);
    if !placed {
        proof {
            lemma_text_view_dom(s, key@);
        }
        let mut fresh: VecDeque<L3Quote> = VecDeque::new();
        fresh.push_back(q);
        let ghost prior = out@;
        let k = key.clone();
        proof {
            lemma_text_view_push(prior, (k, fresh));
        }
        out.push((k, fresh));
        assert forall|a: int, b: int| 0 <= a < b < out@.len()
            implies key_lt((#[trigger] out@[a]).0@, (#[trigger] out@[b]).0@) by {
            assert(out@[a] == prior[a]);
        }
        assert(text_side_view(out@) =~= side_add(text_side_view(s), key@, q));
    }
    *side = out;
}

/// Takes every quote with id `id` out of every level; emptied levels stay.
pub fn text_remove_id(side: &mut TextSide, id: i64)
    requires
        sorted_keys(old(side)@),
    ensures
        sorted_keys(final(side)@),
        text_side_view(final(side)@) == side_remove_id(text_side_view(old(side)@), id),
{
    let ghost s = side@;
    proof {
        lemma_sorted_distinct(s);
    }
    let mut out: TextSide = Vec::new();
    let n = side.len();
    let mut i: usize = 0;
    while i < n
        invariant
            n == s.len(),
            s == side@,
            i <= n,
            distinct_keys(s),
            out@.len() == i,
            forall|j: int| 0 <= j < i ==> (#[trigger] out@[j]).0@ == s[j].0@,
            text_side_view(out@) == side_remove_id(text_side_view(s.take(i as int)), id),
        decreases n - i,
    {
        proof {
            lemma_text_view_take(s, i as int);
        }
        let k = side[i].0.clone();
        let level = retain_other_ids(&side[i].1, id);
        let ghost prior = out@;
        proof {
            lemma_text_view_push(prior, (k, level));
        }
        out.push((k, level));
        assert(text_side_view(out@) =~= side_remove_id(text_side_view(s.take(i + 1)), id));
        i = i + 1;
        assert(forall|j: int| 0 <= j < i - 1 ==> (#[trigger] out@[j]).0@ == s[j].0@);
    }
    assert(s.take(n as int) =~= s);
    assert forall|a: int, b: int| 0 <= a < b < out@.len()
        implies key_lt((#[trigger] out@[a]).0@, (#[trigger] out@[b]).0@) by {
        assert(out@[a].0@ == s[a].0@ && out@[b].0@ == s[b].0@);
    }
    *side = out;
}

/// Drops the levels that hold no quote.
pub fn text_clean(side: &mut TextSide)
    requires
        sorted_keys(old(side)@),
    ensures
        sorted_keys(final(side)@),
        text_side_view(final(side)@) == side_clean(text_side_view(old(side)@)),
{
    let ghost s = side@;
    proof {
        lemma_sorted_distinct(s);
    }
    let mut out: TextSide = Vec::new();
    let n = side.len();
    let mut i: usize = 0;
    while i < n
        invariant
            n == s.len(),
            s == side@,
            i <= n,
            sorted_keys(s),
            distinct_keys(s),
            sorted_keys(out@),
            forall|a: int, j: int| #![trigger out@[a], s[j]] 0 <= a < out@.len() && i <= j < n ==> key_lt(out@[a].0@, s[j].0@),
            text_side_view(out@) == side_clean(text_side_view(s.take(i as int))),
        decreases n - i,
    {
        proof {
            lemma_text_view_take(s, i as int);
        }
        let ghost prior = out@;
        if side[i].1.len() != 0 {
            let k = side[i].0.clone();
            let level = side[i].1.clone();
            proof {
                lemma_text_view_push(prior, (k, level));
            }
            out.push((k, level));
            assert(text_side_view(out@) =~= side_clean(text_side_view(s.take(i + 1))));
        } else {
            assert(side_clean(text_side_view(s.take(i + 1))) =~= side_clean(text_side_view(s.take(i as int))));
        }
        proof {
            assert forall|a: int, b: int| 0 <= a < b < out@.len()
                implies key_lt((#[trigger] out@[a]).0@, (#[trigger] out@[b]).0@) by {
                if b >= prior.len() {
                    assert(out@[a] == prior[a]);
                    assert(out@[b].0@ == s[i as int].0@);
                }
            }
            assert forall|a: int, j: int| 0 <= a < out@.len() && i + 1 <= j < n
                implies #[trigger] key_lt(out@[a].0@, s[j].0@) by {
                if a < prior.len() {
                    assert(out@[a] == prior[a]);
                } else {
                    assert(out@[a].0@ == s[i as int].0@);
                }
            }
        }
        i = i + 1;
    }
    assert(s.take(n as int) =~= s);
    *side = out;
}

/// The side a line names: the bid side when bytes 1 to 3 of the side's JSON
/// text spell `BID`, else the ask side; `None` when those bytes cannot be cut
/// out of the text (it is shorter, or the cut falls inside a character).
pub open spec fn text_side_choice(side_json: Seq<char>) -> Option<bool> {
    let b = encode_utf8(side_json);
    if b.len() < 4 || !is_char_boundary(b, 1) || !is_char_boundary(b, 4) {
        None
    } else {
        Some(b[1] == 66 && b[2] == 73 && b[3] == 68)
    }
}

/// A quote with all its fields present.
pub open spec fn text_quote_ok(q: TextQuote) -> bool {
    q.id is Some && q.price is Some && q.size_bits is Some
}

/// The price text that keys the level of a quote.
pub open spec fn text_quote_key(q: TextQuote) -> Seq<char> {
    q.price->Some_0.0@
}

/// The quote as the book holds it.
pub open spec fn text_quote_l3(q: TextQuote) -> L3Quote {
    L3Quote { id: q.id->Some_0, price_bits: q.price->Some_0.1, size_bits: q.size_bits->Some_0 }
}

/// The quotes of a list; an absent list holds none.
pub open spec fn listed_quotes(qs: Option<Vec<TextQuote>>) -> Seq<TextQuote> {
    match qs {
        Some(v) => v@,
        None => Seq::empty(),
    }
}

/// The ids of a list; an absent list holds none.
pub open spec fn listed_ids(ids: Option<Vec<Option<i64>>>) -> Seq<Option<i64>> {
    match ids {
        Some(v) => v@,
        None => Seq::empty(),
    }
}

/// Every quote of the list has all its fields.
pub open spec fn quotes_ok(qs: Seq<TextQuote>) -> bool {
    forall|i: int| 0 <= i < qs.len() ==> text_quote_ok(#[trigger] qs[i])
}

/// A line the book can take: its side can be cut out and all its quotes and
/// ids are present.
pub open spec fn text_line_ok(l: TextLine) -> bool {
    &&& text_side_choice(l.side_json@) is Some
    &&& quotes_ok(listed_quotes(l.added))
    &&& quotes_ok(listed_quotes(l.changed))
    &&& forall|i: int| 0 <= i < listed_ids(l.deleted).len() ==> (#[trigger] listed_ids(l.deleted)[i]) is Some
}

/// The additions applied in order.
pub open spec fn text_add_all(s: Map<Seq<char>, Seq<L3Quote>>, qs: Seq<TextQuote>) -> Map<Seq<char>, Seq<L3Quote>>
    decreases qs.len(),
{
    if qs.len() == 0 {
        s
    } else {
        side_add(text_add_all(s, qs.drop_last()), text_quote_key(qs.last()), text_quote_l3(qs.last()))
    }
}

/// The changes applied in order: the id leaves every level, then the quote
/// is queued at the back of its level.
pub open spec fn text_change_all(s: Map<Seq<char>, Seq<L3Quote>>, qs: Seq<TextQuote>) -> Map<Seq<char>, Seq<L3Quote>>
    decreases qs.len(),
{
    if qs.len() == 0 {
        s
    } else {
        let q = qs.last();
        side_add(side_remove_id(text_change_all(s, qs.drop_last()), text_quote_l3(q).id), text_quote_key(q), text_quote_l3(q))
    }
}

/// The deletions applied in order.
pub open spec fn text_delete_all(s: Map<Seq<char>, Seq<L3Quote>>, ids: Seq<Option<i64>>) -> Map<Seq<char>, Seq<L3Quote>>
    decreases ids.len(),
{
    if ids.len() == 0 {
        s
    } else {
        side_remove_id(text_delete_all(s, ids.drop_last()), ids.last()->Some_0)
    }
}

/// A line's additions, then changes, then deletions applied to one side.
pub open spec fn text_side_apply(s: Map<Seq<char>, Seq<L3Quote>>, l: TextLine) -> Map<Seq<char>, Seq<L3Quote>> {
    text_delete_all(text_change_all(text_add_all(s, listed_quotes(l.added)), listed_quotes(l.changed)), listed_ids(l.deleted))
}

/// The book after one line, or `None` for a line it cannot take.
pub open spec fn apply_text_line(m: TextBookModel, l: TextLine) -> Option<TextBookModel> {
    if !text_line_ok(l) {
        None
    } else if text_side_choice(l.side_json@) == Some(true) {
        Some(TextBookModel { bid: text_side_apply(m.bid, l), ..m })
    } else {
        Some(TextBookModel { ask: text_side_apply(m.ask, l), ..m })
    }
}

/// The book after the lines in order, or `None` when one is not JSON or
/// cannot be taken.
pub open spec fn apply_text_lines(m: TextBookModel, ls: Seq<Option<TextLine>>) -> Option<TextBookModel>
    decreases ls.len(),
{
    if ls.len() == 0 {
        Some(m)
    } else {
        match apply_text_lines(m, ls.drop_last()) {
            Some(before) => match ls.last() {
                Some(l) => apply_text_line(before, l),
                None => None,
            },
            None => None,
        }
    }
}

/// The book with the empty levels of both sides dropped.
pub open spec fn text_clean_model(m: TextBookModel) -> TextBookModel {
    TextBookModel { bid: side_clean(m.bid), ask: side_clean(m.ask) }
}

/// The empty text-keyed book.
pub open spec fn empty_text_model() -> TextBookModel {
    TextBookModel { bid: Map::empty(), ask: Map::empty() }
}

/// The side a line names (see `text_side_choice`).
fn side_choice(side_json: &String) -> (r: Option<bool>)
    ensures
        r == text_side_choice(side_json@),
{
    let s = side_json.as_str();
    let b = s.as_bytes();
    if b.len() < 4 || !s.is_char_boundary(1) || !s.is_char_boundary(4) {
        return None;
    }
    Some(b[1] == 66 && b[2] == 73 && b[3] == 68)
}

/// Whether every quote of the list has all its fields.
fn check_quotes(qs: &Option<Vec<TextQuote>>) -> (r: bool)
    ensures
        r == quotes_ok(listed_quotes(*qs)),
{
    match qs {
        None => true,
        Some(v) => {
            let n = v.len();
            let mut i: usize = 0;
            while i < n
                invariant
                    n == v@.len(),
                    i <= n,
                    listed_quotes(*qs) == v@,
                    forall|j: int| 0 <= j < i ==> text_quote_ok(#[trigger] v@[j]),
                decreases n - i,
            {
                let q = &v[i];
                if q.id.is_none() || q.price.is_none() || q.size_bits.is_none() {
                    assert(!text_quote_ok(listed_quotes(*qs)[i as int]));
                    return false;
                }
                i = i + 1;
            }
            true
        },
    }
}

/// Whether every id of the list is present.
fn check_ids(ids: &Option<Vec<Option<i64>>>) -> (r: bool)
    ensures
        r == forall|i: int| 0 <= i < listed_ids(*ids).len() ==> (#[trigger] listed_ids(*ids)[i]) is Some,
{
    match ids {
        None => true,
        Some(v) => {
            let n = v.len();
            let mut i: usize = 0;
            while i < n
                invariant
                    n == v@.len(),
                    i <= n,
                    listed_ids(*ids) == v@,
                    forall|j: int| 0 <= j < i ==> (#[trigger] v@[j]) is Some,
                decreases n - i,
            {
                if v[i].is_none() {
                    assert(listed_ids(*ids)[i as int] is None);
                    return false;
                }
                i = i + 1;
            }
            true
        },
    }
}

/// Applies the additions of a list in order.
fn add_text_quotes(side: &mut TextSide, qs: &Option<Vec<TextQuote>>)
    requires
        sorted_keys(old(side)@),
        quotes_ok(listed_quotes(*qs)),
    ensures
        sorted_keys(final(side)@),
        text_side_view(final(side)@) == text_add_all(text_side_view(old(side)@), listed_quotes(*qs)),
{
    if let Some(v) = qs {
        let ghost start = text_side_view(side@);
        let n = v.len();
        let mut i: usize = 0;
        while i < n
            invariant
                n == v@.len(),
                i <= n,
                listed_quotes(*qs) == v@,
                quotes_ok(v@),
                sorted_keys(side@),
                text_side_view(side@) == text_add_all(start, v@.take(i as int)),
            decreases n - i,
        {
            assert(v@.take(i + 1).drop_last() =~= v@.take(i as int));
            assert(text_quote_ok(v@[i as int]));
            let q = &v[i];
            match (&q.price, q.id, q.size_bits) {
                (Some((key, p)), Some(id), Some(sz)) => {
                    text_add(side, key, L3Quote { id, price_bits: *p, size_bits: sz });
                },
                _ => {},
            }
            i = i + 1;
        }
        assert(v@.take(n as int) =~= v@);
    }
}

/// Applies the changes of a list in order.
fn change_text_quotes(side: &mut TextSide, qs: &Option<Vec<TextQuote>>)
    requires
        sorted_keys(old(side)@),
        quotes_ok(listed_quotes(*qs)),
    ensures
        sorted_keys(final(side)@),
        text_side_view(final(side)@) == text_change_all(text_side_view(old(side)@), listed_quotes(*qs)),
{
    if let Some(v) = qs {
        let ghost start = text_side_view(side@);
        let n = v.len();
        let mut i: usize = 0;
        while i < n
            invariant
                n == v@.len(),
                i <= n,
                listed_quotes(*qs) == v@,
                quotes_ok(v@),
                sorted_keys(side@),
                text_side_view(side@) == text_change_all(start, v@.take(i as int)),
            decreases n - i,
        {
            assert(v@.take(i + 1).drop_last() =~= v@.take(i as int));
            assert(text_quote_ok(v@[i as int]));
            let q = &v[i];
            match (&q.price, q.id, q.size_bits) {
                (Some((key, p)), Some(id), Some(sz)) => {
                    text_remove_id(side, id);
                    text_add(side, key, L3Quote { id, price_bits: *p, size_bits: sz });
                },
                _ => {},
            }
            i = i + 1;
        }
        assert(v@.take(n as int) =~= v@);
    }
}

/// Applies the deletions of a list in order.
fn delete_text_ids(side: &mut TextSide, ids: &Option<Vec<Option<i64>>>)
    requires
        sorted_keys(old(side)@),
        forall|i: int| 0 <= i < listed_ids(*ids).len() ==> (#[trigger] listed_ids(*ids)[i]) is Some,
    ensures
        sorted_keys(final(side)@),
        text_side_view(final(side)@) == text_delete_all(text_side_view(old(side)@), listed_ids(*ids)),
{
    if let Some(v) = ids {
        let ghost start = text_side_view(side@);
        assert forall|j: int| 0 <= j < v@.len() implies (#[trigger] v@[j]) is Some by {
            assert(listed_ids(*ids)[j] is Some);
        }
        let n = v.len();
        let mut i: usize = 0;
        while i < n
            invariant
                n == v@.len(),
                i <= n,
                listed_ids(*ids) == v@,
                forall|j: int| 0 <= j < v@.len() ==> (#[trigger] v@[j]) is Some,
                sorted_keys(side@),
                text_side_view(side@) == text_delete_all(start, v@.take(i as int)),
            decreases n - i,
        {
            assert(v@.take(i + 1).drop_last() =~= v@.take(i as int));
            assert(v@[i as int] is Some);
            match v[i] {
                Some(id) => text_remove_id(side, id),
                None => {},
            }
            i = i + 1;
        }
        assert(v@.take(n as int) =~= v@);
    }
}

/// Applies a line's additions, changes and deletions to one side.
fn apply_text_side(side: &mut TextSide, l: &TextLine)
    requires
        sorted_keys(old(side)@),
        text_line_ok(*l),
    ensures
        sorted_keys(final(side)@),
        text_side_view(final(side)@) == text_side_apply(text_side_view(old(side)@), *l),
{
    add_text_quotes(side, &l.added);
    change_text_quotes(side, &l.changed);
    delete_text_ids(side, &l.deleted);
}

impl TextKeyedBook {
    /// The book with no level.
    pub fn new() -> (book: TextKeyedBook)
        ensures
            book.wf(),
            book@ == empty_text_model(),
    {
        let book = TextKeyedBook { bid: Vec::new(), ask: Vec::new() };
        assert(book@.bid =~= Map::<Seq<char>, Seq<L3Quote>>::empty());
        assert(book@.ask =~= Map::<Seq<char>, Seq<L3Quote>>::empty());
        book
    }

    /// Applies one line to the side it names; returns `false`, with the book
    /// left as it was, for a line whose side cannot be cut out or that lacks
    /// a quote field or an id.
    pub fn apply_line(&mut self, l: &TextLine) -> (ok: bool)
        requires
            old(self).wf(),
        ensures
            final(self).wf(),
            match apply_text_line(old(self)@, *l) {
                Some(m) => ok && final(self)@ == m,
                None => !ok && final(self)@ == old(self)@,
            },
    {
        let choice = side_choice(&l.side_json);
        let is_bid = match choice {
            Some(b) => b,
            None => return false,
        };
        if !check_quotes(&l.added) || !check_quotes(&l.changed) || !check_ids(&l.deleted) {
            return false;
        }
        if is_bid {
            apply_text_side(&mut self.bid, l);
        } else {
            apply_text_side(&mut self.ask, l);
        }
        true
    }

    /// Drops the empty levels of both sides.
    pub fn clean(&mut self)
        requires
            old(self).wf(),
        ensures
            final(self).wf(),
            final(self)@ == text_clean_model(old(self)@),
    {
        text_clean(&mut self.ask);
        text_clean(&mut self.bid);
    }
}

/// A text-keyed book as `read_text_book` returns it has no empty level, and
/// every level that held a quote before the cleaning is kept as it was.
pub proof fn law_text_book_has_no_empty_level(m: TextBookModel)
    ensures
        forall|k: Seq<char>| #[trigger] text_clean_model(m).bid.contains_key(k)
            ==> text_clean_model(m).bid[k].len() > 0 && text_clean_model(m).bid[k] == m.bid[k],
        forall|k: Seq<char>| #[trigger] text_clean_model(m).ask.contains_key(k)
            ==> text_clean_model(m).ask[k].len() > 0 && text_clean_model(m).ask[k] == m.ask[k],
        forall|k: Seq<char>| m.bid.contains_key(k) && m.bid[k].len() > 0 ==> #[trigger] text_clean_model(m).bid.contains_key(k),
        forall|k: Seq<char>| m.ask.contains_key(k) && m.ask[k].len() > 0 ==> #[trigger] text_clean_model(m).ask.contains_key(k),
{
}

/// The text-keyed book takes every line it can read, whatever the lines
/// before it held: a line is refused only for what it holds itself, never for
/// the book's state (no instrument is checked).
pub proof fn law_text_line_refused_only_for_itself(m: TextBookModel, l: TextLine)
    ensures
        apply_text_line(m, l) is Some <==> text_line_ok(l),
{
}

/// A line's changes are applied one after another: the list with one more
/// change is the list, then that change (its id leaves every level, then the
/// quote is queued at the back of its level).
pub proof fn law_text_change_all_push(s: Map<Seq<char>, Seq<L3Quote>>, qs: Seq<TextQuote>, q: TextQuote)
    ensures
        text_change_all(s, qs.push(q)) == side_add(side_remove_id(text_change_all(s, qs), text_quote_l3(q).id),
            text_quote_key(q), text_quote_l3(q)),
{
    assert(qs.push(q).drop_last() =~= qs);
}

/// After a line's changes, every changed quote that no later change of the
/// line moves again is held once, at the level of its price text, and no
/// other quote carries its id.
pub proof fn law_text_change_all_holds_each_change(s: Map<Seq<char>, Seq<L3Quote>>, qs: Seq<TextQuote>, j: int)
    requires
        0 <= j < qs.len(),
        forall|k: int| j < k < qs.len() ==> text_quote_l3(#[trigger] qs[k]).id != text_quote_l3(qs[j]).id,
    ensures
        holds_once(text_change_all(s, qs), text_quote_key(qs[j]), text_quote_l3(qs[j])),
    decreases qs.len(),
{
    let prev = text_change_all(s, qs.drop_last());
    let last = qs.last();
    if j == qs.len() - 1 {
        lemma_change_holds_new(prev, text_quote_key(last), text_quote_l3(last));
    } else {
        assert forall|k: int| j < k < qs.drop_last().len()
            implies text_quote_l3(#[trigger] qs.drop_last()[k]).id != text_quote_l3(qs.drop_last()[j]).id by {
            assert(qs.drop_last()[k] == qs[k]);
        }
        law_text_change_all_holds_each_change(s, qs.drop_last(), j);
        assert(qs.drop_last()[j] == qs[j]);
        assert(text_quote_l3(qs[qs.len() - 1]).id != text_quote_l3(qs[j]).id);
        lemma_change_keeps_held(prev, text_quote_key(qs[j]), text_quote_l3(qs[j]), text_quote_key(last), text_quote_l3(last));
    }
}

/// A line's deletions are applied one after another: the list with one more
/// id is the list, then that id.
pub proof fn law_text_delete_all_push(s: Map<Seq<char>, Seq<L3Quote>>, ids: Seq<Option<i64>>, id: i64)
    ensures
        text_delete_all(s, ids.push(Some(id))) == side_remove_id(text_delete_all(s, ids), id),
{
    assert(ids.push(Some(id)).drop_last() =~= ids);
}

/// A line's deletions take out of every level exactly the quotes whose id
/// is one of the deleted ids, and keep every other quote in its order.
pub proof fn law_text_delete_all_removes_exactly_the_ids(s: Map<Seq<char>, Seq<L3Quote>>, ids: Seq<Option<i64>>, plain: Seq<i64>)
    requires
        ids.len() == plain.len(),
        forall|i: int| 0 <= i < ids.len() ==> #[trigger] ids[i] == Some(plain[i]),
    ensures
        text_delete_all(s, ids) == side_without_ids(s, plain),
    decreases ids.len(),
{
    if ids.len() == 0 {
        assert forall|k: Seq<char>| #[trigger] s.contains_key(k) implies s[k].filter(|q: L3Quote| !plain.contains(q.id)) == s[k] by {
            lemma_filter_all(s[k], |q: L3Quote| !plain.contains(q.id));
        }
        assert(side_without_ids(s, plain) =~= s);
    } else {
        assert forall|i: int| 0 <= i < ids.drop_last().len()
            implies #[trigger] ids.drop_last()[i] == Some(plain.drop_last()[i]) by {
            assert(ids.drop_last()[i] == ids[i]);
        }
        law_text_delete_all_removes_exactly_the_ids(s, ids.drop_last(), plain.drop_last());
        assert(ids.last() == Some(plain.last()));
        lemma_without_ids_push(s, plain.drop_last(), plain.last());
        assert(plain.drop_last().push(plain.last()) =~= plain);
    }
}

/// Whether a line's quote belongs to the level with price text `k`.
pub open spec fn at_text_key(k: Seq<char>) -> spec_fn(TextQuote) -> bool {
    |q: TextQuote| text_quote_key(q) == k
}

/// The side with a line's added quotes queued: each level holds what it
/// held, followed by the line's quotes for that level in their order.
pub open spec fn text_side_with_added(s: Map<Seq<char>, Seq<L3Quote>>, qs: Seq<TextQuote>) -> Map<Seq<char>, Seq<L3Quote>> {
    Map::new(
        |k: Seq<char>| s.contains_key(k) || exists|i: int| 0 <= i < qs.len() && text_quote_key(#[trigger] qs[i]) == k,
        |k: Seq<char>| (if s.contains_key(k) { s[k] } else { Seq::empty() })
            + qs.filter(at_text_key(k)).map_values(|q: TextQuote| text_quote_l3(q)),
    )
}

/// A filter of a line's quotes that keeps none of them is empty.
proof fn lemma_text_filter_none(l: Seq<TextQuote>, p: spec_fn(TextQuote) -> bool)
    requires
        forall|i: int| 0 <= i < l.len() ==> !p(#[trigger] l[i]),
    ensures
        l.filter(p).len() == 0,
    decreases l.len(),
{
    reveal_with_fuel(Seq::filter, 1);
    if l.len() > 0 {
        assert forall|i: int| 0 <= i < l.drop_last().len() implies !p(#[trigger] l.drop_last()[i]) by {
            assert(l.drop_last()[i] == l[i]);
        }
        lemma_text_filter_none(l.drop_last(), p);
        assert(!p(l[l.len() - 1]));
    }
}

/// A line's additions are all queued, in order: every level holds what it
/// held followed by the line's quotes for that level.
pub proof fn law_text_add_all_queues_every_quote(s: Map<Seq<char>, Seq<L3Quote>>, qs: Seq<TextQuote>)
    ensures
        text_add_all(s, qs) == text_side_with_added(s, qs),
    decreases qs.len(),
{
    reveal_with_fuel(Seq::filter, 1);
    if qs.len() == 0 {
        assert forall|k: Seq<char>| #[trigger] s.contains_key(k) implies text_side_with_added(s, qs)[k] == s[k] by {
            assert(qs.filter(at_text_key(k)).map_values(|q: TextQuote| text_quote_l3(q)) =~= Seq::<L3Quote>::empty());
            assert(s[k] + Seq::<L3Quote>::empty() =~= s[k]);
        }
        assert(text_side_with_added(s, qs) =~= s);
    } else {
        let front = qs.drop_last();
        let last = qs.last();
        law_text_add_all_queues_every_quote(s, front);
        let prev = text_side_with_added(s, front);
        let got = side_add(prev, text_quote_key(last), text_quote_l3(last));
        let want = text_side_with_added(s, qs);
        assert(front.push(last) =~= qs);
        assert forall|k: Seq<char>| #[trigger] got.contains_key(k) == want.contains_key(k) by {
            if exists|i: int| 0 <= i < front.len() && text_quote_key(#[trigger] front[i]) == k {
                let i = choose|i: int| 0 <= i < front.len() && text_quote_key(#[trigger] front[i]) == k;
                assert(qs[i] == front[i]);
            }
            if exists|i: int| 0 <= i < qs.len() && text_quote_key(#[trigger] qs[i]) == k {
                let i = choose|i: int| 0 <= i < qs.len() && text_quote_key(#[trigger] qs[i]) == k;
                if i < front.len() {
                    assert(front[i] == qs[i]);
                }
            }
            assert(qs[qs.len() - 1] == last);
        }
        assert forall|k: Seq<char>| #[trigger] want.contains_key(k) implies got[k] == want[k] by {
            front.lemma_filter_push(last, at_text_key(k));
            let prior = if s.contains_key(k) { s[k] } else { Seq::<L3Quote>::empty() };
            let f = |q: TextQuote| text_quote_l3(q);
            if k == text_quote_key(last) {
                assert(front.filter(at_text_key(k)).push(last).map_values(f)
                    =~= front.filter(at_text_key(k)).map_values(f).push(text_quote_l3(last)));
                if !prev.contains_key(k) {
                    assert(!s.contains_key(k));
                    assert forall|i: int| 0 <= i < front.len() implies text_quote_key(#[trigger] front[i]) != k by {}
                    lemma_text_filter_none(front, at_text_key(k));
                    assert(prior + front.filter(at_text_key(k)).map_values(f) =~= Seq::<L3Quote>::empty());
                }
                assert(got[k] =~= want[k]);
            } else {
                assert(got[k] == prev[k]);
            }
        }
        assert(got =~= want);
    }
}

/// When the lines before index `i` apply and the one at `i` does not, the
/// whole run fails.
proof fn lemma_failed_line(m: TextBookModel, ls: Seq<Option<TextLine>>, i: int)
    requires
        0 <= i < ls.len(),
        apply_text_lines(m, ls.take(i)) is Some,
        apply_text_lines(m, ls.take(i + 1)) is None,
    ensures
        apply_text_lines(m, ls) is None,
    decreases ls.len() - i,
{
    if i + 1 == ls.len() {
        assert(ls.take(i + 1) =~= ls);
    } else {
        assert(ls.take(i + 2).drop_last() =~= ls.take(i + 1));
        if apply_text_lines(m, ls.take(i + 1)) is None {
            lemma_failed_prefix(m, ls, i + 1);
        }
    }
}

/// A failed prefix makes the whole run fail.
proof fn lemma_failed_prefix(m: TextBookModel, ls: Seq<Option<TextLine>>, j: int)
    requires
        0 <= j <= ls.len(),
        apply_text_lines(m, ls.take(j)) is None,
    ensures
        apply_text_lines(m, ls) is None,
    decreases ls.len() - j,
{
    if j == ls.len() {
        assert(ls.take(j) =~= ls);
    } else {
        assert(ls.take(j + 1).drop_last() =~= ls.take(j));
        lemma_failed_prefix(m, ls, j + 1);
    }
}

/// Builds the text-keyed book from JSON lines: each line's quotes go to the
/// side it names, additions then changes then deletions, and at the end the
/// empty levels are dropped. Each side lists its levels in increasing order
/// of price text. `None` when a line is not JSON, its side cannot
/// be cut out, or one of its quotes lacks an id, price or size (or a deleted
/// id is not an integer).
pub fn read_text_book(lines: &Vec<String>) -> (r: Option<TextKeyedBook>)
    ensures
        match apply_text_lines(empty_text_model(), lines@.map_values(|l: String| spec_text_line(l@))) {
            Some(m) => r matches Some(b) && b.wf() && b@ == text_clean_model(m),
            None => r is None,
        },
{
    let ghost parsed = lines@.map_values(|l: String| spec_text_line(l@));
    let mut book = TextKeyedBook::new();
    let n = lines.len();
    let mut i: usize = 0;
    while i < n
        invariant
            n == lines@.len(),
            i <= n,
            parsed == lines@.map_values(|l: String| spec_text_line(l@)),
            book.wf(),
            apply_text_lines(empty_text_model(), parsed.take(i as int)) == Some(book@),
        decreases n - i,
    {
        assert(parsed.take(i + 1).drop_last() =~= parsed.take(i as int));
        let line = parse_text_line(lines[i].as_str());
        assert(line == parsed[i as int]);
        match line {
            None => {
                proof {
                    lemma_failed_line(empty_text_model(), parsed, i as int);
                }
                return None;
            },
            Some(l) => {
                if !book.apply_line(&l) {
                    proof {
                        lemma_failed_line(empty_text_model(), parsed, i as int);
                    }
                    return None;
                }
            },
        }
        i = i + 1;
    }
    assert(parsed.take(n as int) =~= parsed);
    book.clean();
    Some(book)
}

} // verus!
