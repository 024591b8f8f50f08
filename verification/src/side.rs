use vstd::prelude::*;
use std::collections::{BTreeMap, VecDeque};
use crate::quote::{L3Quote, PricedQuote};
use crate::level::{level_without, retain_other_ids};

verus! {

/// One side of the book as stored: price key to the queue at that level.
pub type SideBook = BTreeMap<i64, VecDeque<L3Quote>>;

/// The contents of a side: each price key present to its queue, oldest first.
pub open spec fn side_view(side: SideBook) -> Map<i64, Seq<L3Quote>> {
    Map::new(|k: i64| side@.contains_key(k), |k: i64| side@[k]@)
}

/// `q` queued at the back of level `key`; the level is opened if it was absent.
pub open spec fn side_add<K>(s: Map<K, Seq<L3Quote>>, key: K, q: L3Quote) -> Map<K, Seq<L3Quote>> {
    if s.contains_key(key) {
        s.insert(key, s[key].push(q))
    } else {
        s.insert(key, seq![q])
    }
}

/// Every quote with id `id` taken out of every level; levels that become
/// empty stay in place.
pub open spec fn side_remove_id<K>(s: Map<K, Seq<L3Quote>>, id: i64) -> Map<K, Seq<L3Quote>> {
    Map::new(|k: K| s.contains_key(k), |k: K| level_without(s[k], id))
}

/// Queues `q` at the back of level `key`, opening the level if needed.
pub fn add_quote(side: &mut SideBook, key: i64, q: L3Quote)
    ensures
        side_view(*final(side)) == side_add(side_view(*old(side)), key, q),
{
    let ghost before = side_view(*side);
    let mut level: VecDeque<L3Quote> = match side.remove(&key) {
        Some(l) => l,
        None => VecDeque::new(),
    };
    level.push_back(q);
    side.insert(key, level);
    assert(side_view(*side) =~= side_add(before, key, q));
}

/// Takes every quote with id `id` out of every level of the side.
pub fn remove_id(side: &mut SideBook, id: i64)
    ensures
        side_view(*final(side)) == side_remove_id(side_view(*old(side)), id),
{
    let ghost before = side_view(*side);
    let mut out: SideBook = BTreeMap::new();
    for kv in it: side.iter()
        invariant
            before == side_view(*side),
            forall|k: i64| #[trigger] out@.contains_key(k) ==> side@.contains_key(k),
            forall|k: i64| #[trigger] out@.contains_key(k) ==> out@[k]@ == level_without(before[k], id),
            forall|j: int| 0 <= j < it.index() ==> out@.contains_key(*(#[trigger] it.seq()[j]).0),
    {
        let (k, v) = kv;
        out.insert(*k, retain_other_ids(v, id));
    }
    assert(side_view(out) =~= side_remove_id(before, id));
    *side = out;
}


/// The side with its empty levels dropped.
pub open spec fn side_clean<K>(s: Map<K, Seq<L3Quote>>) -> Map<K, Seq<L3Quote>> {
    Map::new(|k: K| s.contains_key(k) && s[k].len() > 0, |k: K| s[k])
}

/// A change: every quote with the changed id leaves the side, then the new
/// quote is queued at the back of its level.
pub open spec fn side_change(s: Map<i64, Seq<L3Quote>>, pq: PricedQuote) -> Map<i64, Seq<L3Quote>> {
    side_add(side_remove_id(s, pq.quote.id), pq.price_key, pq.quote)
}

/// The additions `qs` applied in order.
pub open spec fn side_add_all(s: Map<i64, Seq<L3Quote>>, qs: Seq<PricedQuote>) -> Map<i64, Seq<L3Quote>>
    decreases qs.len(),
{
    if qs.len() == 0 {
        s
    } else {
        let before = side_add_all(s, qs.drop_last());
        side_add(before, qs.last().price_key, qs.last().quote)
    }
}

/// The changes `qs` applied in order.
pub open spec fn side_change_all(s: Map<i64, Seq<L3Quote>>, qs: Seq<PricedQuote>) -> Map<i64, Seq<L3Quote>>
    decreases qs.len(),
{
    if qs.len() == 0 {
        s
    } else {
        side_change(side_change_all(s, qs.drop_last()), qs.last())
    }
}

/// The deletions of the ids `ids` applied in order.
pub open spec fn side_delete_all(s: Map<i64, Seq<L3Quote>>, ids: Seq<i64>) -> Map<i64, Seq<L3Quote>>
    decreases ids.len(),
{
    if ids.len() == 0 {
        s
    } else {
        side_remove_id(side_delete_all(s, ids.drop_last()), ids.last())
    }
}

/// Drops the levels of the side that hold no quote.
pub fn clean_side(side: &mut SideBook)
    ensures
        side_view(*final(side)) == side_clean(side_view(*old(side))),
{
    let ghost before = side_view(*side);
    let mut out: SideBook = BTreeMap::new();
    for kv in it: side.iter()
        invariant
            before == side_view(*side),
            forall|k: i64| #[trigger] out@.contains_key(k) ==> side@.contains_key(k) && side@[k]@.len() > 0,
            forall|k: i64| #[trigger] out@.contains_key(k) ==> out@[k]@ == before[k],
            forall|j: int| 0 <= j < it.index() && (#[trigger] it.seq()[j]).1@.len() > 0
                ==> out@.contains_key(*it.seq()[j].0),
    {
        let (k, v) = kv;
        if v.len() != 0 {
            out.insert(*k, v.clone());
        }
    }
    assert(side_view(out) =~= side_clean(before));
    *side = out;
}

/// Queues each of `qs` at the back of its level, in order.
pub fn add_all(side: &mut SideBook, qs: &Vec<PricedQuote>)
    ensures
        side_view(*final(side)) == side_add_all(side_view(*old(side)), qs@),
{
    let ghost before = side_view(*side);
    let n = qs.len();
    let mut i: usize = 0;
    while i < n
        invariant
            n == qs@.len(),
            i <= n,
            side_view(*side) == side_add_all(before, qs@.take(i as int)),
        decreases n - i,
    {
        let pq: PricedQuote = qs[i];
        assert(qs@.take(i + 1).drop_last() =~= qs@.take(i as int));
        add_quote(side, pq.price_key, pq.quote);
        i = i + 1;
    }
    assert(qs@.take(n as int) =~= qs@);
}

/// Applies one change: the id leaves every level, then the quote is queued
/// at the back of its level.
pub fn change_quote(side: &mut SideBook, pq: PricedQuote)
    ensures
        side_view(*final(side)) == side_change(side_view(*old(side)), pq),
{
    remove_id(side, pq.quote.id);
    add_quote(side, pq.price_key, pq.quote);
}

/// Applies the changes `qs` in order.
pub fn change_all(side: &mut SideBook, qs: &Vec<PricedQuote>)
    ensures
        side_view(*final(side)) == side_change_all(side_view(*old(side)), qs@),
{
    let ghost before = side_view(*side);
    let n = qs.len();
    let mut i: usize = 0;
    while i < n
        invariant
            n == qs@.len(),
            i <= n,
            side_view(*side) == side_change_all(before, qs@.take(i as int)),
        decreases n - i,
    {
        let pq: PricedQuote = qs[i];
        assert(qs@.take(i + 1).drop_last() =~= qs@.take(i as int));
        change_quote(side, pq);
        i = i + 1;
    }
    assert(qs@.take(n as int) =~= qs@);
}

/// Deletes the ids `ids` in order: each leaves every level of the side.
pub fn delete_all(side: &mut SideBook, ids: &Vec<i64>)
    ensures
        side_view(*final(side)) == side_delete_all(side_view(*old(side)), ids@),
{
    let ghost before = side_view(*side);
    let n = ids.len();
    let mut i: usize = 0;
    while i < n
        invariant
            n == ids@.len(),
            i <= n,
            side_view(*side) == side_delete_all(before, ids@.take(i as int)),
        decreases n - i,
    {
        let id: i64 = ids[i];
        assert(ids@.take(i + 1).drop_last() =~= ids@.take(i as int));
        remove_id(side, id);
        i = i + 1;
    }
    assert(ids@.take(n as int) =~= ids@);
}

} // verus!
