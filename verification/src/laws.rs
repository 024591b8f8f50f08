use vstd::prelude::*;
use crate::quote::{L3Quote, PricedQuote};
use crate::level::{level_without, lemma_level_without_drops_id, lemma_level_without_absent, law_level_without_is_filter, lemma_filter_filter, lemma_filter_same_pred, id_is, id_is_not, both};
use crate::side::{side_add, side_remove_id, side_change, side_clean, side_add_all, side_change_all, side_delete_all};
use crate::book::{BookModel, apply_tick, apply_ticks, clean_model, is_bid_side};
use crate::tick::{Tick, QuotesEnum};

verus! {

/// An added quote is queued at the back of its level, behind what the level
/// held; every other level is left as it was.
pub proof fn law_add_queues_at_back<K>(s: Map<K, Seq<L3Quote>>, key: K, q: L3Quote)
    ensures
        side_add(s, key, q).contains_key(key),
        side_add(s, key, q)[key] == (if s.contains_key(key) { s[key] } else { Seq::empty() }).push(q),
        forall|k: K| k != key ==> (#[trigger] side_add(s, key, q).contains_key(k)) == s.contains_key(k),
        forall|k: K| k != key && s.contains_key(k) ==> #[trigger] side_add(s, key, q)[k] == s[k],
{
    if !s.contains_key(key) {
        assert(seq![q] =~= Seq::<L3Quote>::empty().push(q));
    }
}

/// After a deletion no level holds a quote with the deleted id, and the
/// side keeps all its levels.
pub proof fn law_delete_leaves_no_id<K>(s: Map<K, Seq<L3Quote>>, id: i64)
    ensures
        side_remove_id(s, id).dom() == s.dom(),
        forall|k: K, i: int| side_remove_id(s, id).contains_key(k) && 0 <= i < side_remove_id(s, id)[k].len()
            ==> (#[trigger] side_remove_id(s, id)[k][i]).id != id,
{
    assert(side_remove_id(s, id).dom() =~= s.dom());
    assert forall|k: K, i: int| side_remove_id(s, id).contains_key(k) && 0 <= i < side_remove_id(s, id)[k].len()
        implies (#[trigger] side_remove_id(s, id)[k][i]).id != id by {
        lemma_level_without_drops_id(s[k], id);
    }
}

/// Deleting an id that no quote of the side carries changes nothing.
pub proof fn law_delete_absent_is_noop<K>(s: Map<K, Seq<L3Quote>>, id: i64)
    requires
        forall|k: K, i: int| s.contains_key(k) && 0 <= i < s[k].len() ==> (#[trigger] s[k][i]).id != id,
    ensures
        side_remove_id(s, id) == s,
{
    assert forall|k: K| s.contains_key(k) implies #[trigger] side_remove_id(s, id)[k] == s[k] by {
        assert forall|i: int| 0 <= i < s[k].len() implies (#[trigger] s[k][i]).id != id by {}
        lemma_level_without_absent(s[k], id);
    }
    assert(side_remove_id(s, id) =~= s);
}

/// After a change the side holds exactly one quote with the changed id: the
/// new one, at the back of its level.
pub proof fn law_change_leaves_one(s: Map<i64, Seq<L3Quote>>, pq: PricedQuote)
    ensures
        side_change(s, pq).contains_key(pq.price_key),
        side_change(s, pq)[pq.price_key].last() == pq.quote,
        forall|k: i64, i: int| side_change(s, pq).contains_key(k) && 0 <= i < side_change(s, pq)[k].len()
            && (#[trigger] side_change(s, pq)[k][i]).id == pq.quote.id
            ==> k == pq.price_key && i == side_change(s, pq)[k].len() - 1,
{
    let removed = side_remove_id(s, pq.quote.id);
    law_delete_leaves_no_id(s, pq.quote.id);
    law_add_queues_at_back(removed, pq.price_key, pq.quote);
    let after = side_change(s, pq);
    assert forall|k: i64, i: int| after.contains_key(k) && 0 <= i < after[k].len()
        && (#[trigger] after[k][i]).id == pq.quote.id
        implies k == pq.price_key && i == after[k].len() - 1 by {
        if k != pq.price_key {
            assert(after[k][i] == removed[k][i]);
        } else if i < after[k].len() - 1 {
            let prior = if removed.contains_key(k) { removed[k] } else { Seq::<L3Quote>::empty() };
            assert(after[k] == prior.push(pq.quote));
            assert(after[k][i] == prior[i]);
            assert(removed.contains_key(k));
            assert(removed[k][i] == after[k][i]);
        }
    }
}

/// Cleaning keeps every level that holds a quote, as it is, and drops the
/// empty ones.
pub proof fn law_clean_drops_only_empty_levels<K>(s: Map<K, Seq<L3Quote>>)
    ensures
        forall|k: K| #[trigger] side_clean(s).contains_key(k) <==> s.contains_key(k) && s[k].len() > 0,
        forall|k: K| #[trigger] side_clean(s).contains_key(k) ==> side_clean(s)[k] == s[k],
        side_clean(side_clean(s)) == side_clean(s),
{
    assert(side_clean(side_clean(s)) =~= side_clean(s));
}

/// Two sides with the same non-empty levels hold the same quotes at each
/// level that is non-empty in one of them.
proof fn lemma_agreeing_level(s1: Map<i64, Seq<L3Quote>>, s2: Map<i64, Seq<L3Quote>>, k: i64)
    requires
        side_clean(s1) == side_clean(s2),
        s1.contains_key(k),
        s1[k].len() > 0,
    ensures
        s2.contains_key(k),
        s2[k] == s1[k],
{
    law_clean_drops_only_empty_levels(s1);
    law_clean_drops_only_empty_levels(s2);
    assert(side_clean(s1).contains_key(k));
    assert(side_clean(s2).contains_key(k));
}

/// Adding to two sides with the same non-empty levels gives sides with
/// the same non-empty levels.
proof fn lemma_add_keeps_agreement(s1: Map<i64, Seq<L3Quote>>, s2: Map<i64, Seq<L3Quote>>, key: i64, q: L3Quote)
    requires
        side_clean(s1) == side_clean(s2),
    ensures
        side_clean(side_add(s1, key, q)) == side_clean(side_add(s2, key, q)),
{
    let a1 = side_add(s1, key, q);
    let a2 = side_add(s2, key, q);
    law_add_queues_at_back(s1, key, q);
    law_add_queues_at_back(s2, key, q);
    law_clean_drops_only_empty_levels(s1);
    law_clean_drops_only_empty_levels(s2);
    if s1.contains_key(key) && s1[key].len() > 0 {
        lemma_agreeing_level(s1, s2, key);
    } else {
        assert(!side_clean(s1).contains_key(key));
        assert(!side_clean(s2).contains_key(key));
        assert(a1[key] =~= seq![q]);
        assert(a2[key] =~= seq![q]);
    }
    assert forall|k: i64| k != key && #[trigger] s1.contains_key(k) && s1[k].len() > 0
        implies s2.contains_key(k) && s2[k] == s1[k] by {
        lemma_agreeing_level(s1, s2, k);
    }
    assert forall|k: i64| k != key && #[trigger] s2.contains_key(k) && s2[k].len() > 0
        implies s1.contains_key(k) && s1[k] == s2[k] by {
        lemma_agreeing_level(s2, s1, k);
    }
    assert(side_clean(a1) =~= side_clean(a2));
}

/// Removing an id from two sides with the same non-empty levels gives
/// sides with the same non-empty levels.
proof fn lemma_remove_keeps_agreement(s1: Map<i64, Seq<L3Quote>>, s2: Map<i64, Seq<L3Quote>>, id: i64)
    requires
        side_clean(s1) == side_clean(s2),
    ensures
        side_clean(side_remove_id(s1, id)) == side_clean(side_remove_id(s2, id)),
{
    let r1 = side_remove_id(s1, id);
    let r2 = side_remove_id(s2, id);
    assert forall|k: i64| #[trigger] s1.contains_key(k) && s1[k].len() > 0
        implies s2.contains_key(k) && s2[k] == s1[k] by {
        lemma_agreeing_level(s1, s2, k);
    }
    assert forall|k: i64| #[trigger] s2.contains_key(k) && s2[k].len() > 0
        implies s1.contains_key(k) && s1[k] == s2[k] by {
        lemma_agreeing_level(s2, s1, k);
    }
    assert forall|k: i64| #[trigger] r1.contains_key(k) && r1[k].len() > 0
        implies r2.contains_key(k) && r2[k] == r1[k] by {
        if s1[k].len() == 0 {
            assert(level_without(s1[k], id).len() == 0);
        }
    }
    assert forall|k: i64| #[trigger] r2.contains_key(k) && r2[k].len() > 0
        implies r1.contains_key(k) && r1[k] == r2[k] by {
        if s2[k].len() == 0 {
            assert(level_without(s2[k], id).len() == 0);
        }
    }
    assert(side_clean(r1) =~= side_clean(r2));
}

proof fn lemma_add_all_keeps_agreement(s1: Map<i64, Seq<L3Quote>>, s2: Map<i64, Seq<L3Quote>>, qs: Seq<PricedQuote>)
    requires
        side_clean(s1) == side_clean(s2),
    ensures
        side_clean(side_add_all(s1, qs)) == side_clean(side_add_all(s2, qs)),
    decreases qs.len(),
{
    if qs.len() > 0 {
        lemma_add_all_keeps_agreement(s1, s2, qs.drop_last());
        lemma_add_keeps_agreement(side_add_all(s1, qs.drop_last()), side_add_all(s2, qs.drop_last()),
            qs.last().price_key, qs.last().quote);
    }
}

proof fn lemma_change_all_keeps_agreement(s1: Map<i64, Seq<L3Quote>>, s2: Map<i64, Seq<L3Quote>>, qs: Seq<PricedQuote>)
    requires
        side_clean(s1) == side_clean(s2),
    ensures
        side_clean(side_change_all(s1, qs)) == side_clean(side_change_all(s2, qs)),
    decreases qs.len(),
{
    if qs.len() > 0 {
        let pq = qs.last();
        let b1 = side_change_all(s1, qs.drop_last());
        let b2 = side_change_all(s2, qs.drop_last());
        lemma_change_all_keeps_agreement(s1, s2, qs.drop_last());
        lemma_remove_keeps_agreement(b1, b2, pq.quote.id);
        lemma_add_keeps_agreement(side_remove_id(b1, pq.quote.id), side_remove_id(b2, pq.quote.id),
            pq.price_key, pq.quote);
    }
}

proof fn lemma_delete_all_keeps_agreement(s1: Map<i64, Seq<L3Quote>>, s2: Map<i64, Seq<L3Quote>>, ids: Seq<i64>)
    requires
        side_clean(s1) == side_clean(s2),
    ensures
        side_clean(side_delete_all(s1, ids)) == side_clean(side_delete_all(s2, ids)),
    decreases ids.len(),
{
    if ids.len() > 0 {
        lemma_delete_all_keeps_agreement(s1, s2, ids.drop_last());
        lemma_remove_keeps_agreement(side_delete_all(s1, ids.drop_last()), side_delete_all(s2, ids.drop_last()),
            ids.last());
    }
}

/// One tick applied to two books that differ only in empty levels gives
/// books that differ only in empty levels, or is refused by both.
proof fn lemma_tick_keeps_agreement(m1: BookModel, m2: BookModel, t: Tick)
    requires
        clean_model(m1) == clean_model(m2),
    ensures
        apply_tick(m1, t) is None <==> apply_tick(m2, t) is None,
        apply_tick(m1, t) is Some ==> clean_model(apply_tick(m1, t).unwrap()) == clean_model(apply_tick(m2, t).unwrap()),
{
    assert(m1.instrument == clean_model(m1).instrument);
    assert(m2.instrument == clean_model(m2).instrument);
    assert(side_clean(m1.bid) == side_clean(m2.bid));
    assert(side_clean(m1.ask) == side_clean(m2.ask));
    match t.quotes {
        QuotesEnum::Quotes(q) => {
            lemma_add_all_keeps_agreement(m1.bid, m2.bid, q.added@);
            lemma_change_all_keeps_agreement(side_add_all(m1.bid, q.added@), side_add_all(m2.bid, q.added@), q.changed@);
            lemma_delete_all_keeps_agreement(
                side_change_all(side_add_all(m1.bid, q.added@), q.changed@),
                side_change_all(side_add_all(m2.bid, q.added@), q.changed@), q.deleted@);
            lemma_add_all_keeps_agreement(m1.ask, m2.ask, q.added@);
            lemma_change_all_keeps_agreement(side_add_all(m1.ask, q.added@), side_add_all(m2.ask, q.added@), q.changed@);
            lemma_delete_all_keeps_agreement(
                side_change_all(side_add_all(m1.ask, q.added@), q.changed@),
                side_change_all(side_add_all(m2.ask, q.added@), q.changed@), q.deleted@);
        },
        QuotesEnum::Vec(_) => {},
    }
}

proof fn lemma_ticks_keep_agreement(m1: BookModel, m2: BookModel, ts: Seq<Tick>)
    requires
        clean_model(m1) == clean_model(m2),
    ensures
        apply_ticks(m1, ts) is None <==> apply_ticks(m2, ts) is None,
        apply_ticks(m1, ts) is Some ==> clean_model(apply_ticks(m1, ts).unwrap()) == clean_model(apply_ticks(m2, ts).unwrap()),
    decreases ts.len(),
{
    if ts.len() > 0 {
        lemma_ticks_keep_agreement(m1, m2, ts.drop_last());
        if apply_ticks(m1, ts.drop_last()) is Some {
            lemma_tick_keeps_agreement(apply_ticks(m1, ts.drop_last()).unwrap(), apply_ticks(m2, ts.drop_last()).unwrap(), ts.last());
        }
    }
}

/// Ticks applied one run after another are the ticks of both runs applied in order.
pub proof fn lemma_apply_ticks_append(m: BookModel, ts1: Seq<Tick>, ts2: Seq<Tick>)
    ensures
        apply_ticks(m, ts1 + ts2) == match apply_ticks(m, ts1) {
            Some(a) => apply_ticks(a, ts2),
            None => None,
        },
    decreases ts2.len(),
{
    if ts2.len() == 0 {
        assert(ts1 + ts2 =~= ts1);
    } else {
        lemma_apply_ticks_append(m, ts1, ts2.drop_last());
        assert((ts1 + ts2).drop_last() =~= ts1 + ts2.drop_last());
        assert((ts1 + ts2).last() == ts2.last());
    }
}

/// Feeding ticks in two runs, the book cleaned after the first, gives the
/// same cleaned book as feeding them in one run; and a run is refused in
/// one way exactly when it is refused in the other.
pub proof fn law_runs_compose(m: BookModel, ts1: Seq<Tick>, ts2: Seq<Tick>)
    requires
        apply_ticks(m, ts1) is Some,
    ensures
        apply_ticks(clean_model(apply_ticks(m, ts1).unwrap()), ts2) is None <==> apply_ticks(m, ts1 + ts2) is None,
        apply_ticks(m, ts1 + ts2) is Some ==> clean_model(apply_ticks(m, ts1 + ts2).unwrap())
            == clean_model(apply_ticks(clean_model(apply_ticks(m, ts1).unwrap()), ts2).unwrap()),
{
    let a = apply_ticks(m, ts1).unwrap();
    lemma_apply_ticks_append(m, ts1, ts2);
    assert(clean_model(clean_model(a)) == clean_model(a)) by {
        law_clean_drops_only_empty_levels(a.bid);
        law_clean_drops_only_empty_levels(a.ask);
    }
    lemma_ticks_keep_agreement(a, clean_model(a), ts2);
}

/// A cleaned book, as every successful run of ticks leaves it, has no
/// empty level on either side.
pub proof fn law_cleaned_book_has_no_empty_level(m: BookModel)
    ensures
        forall|k: i64| #[trigger] clean_model(m).bid.contains_key(k) ==> clean_model(m).bid[k].len() > 0,
        forall|k: i64| #[trigger] clean_model(m).ask.contains_key(k) ==> clean_model(m).ask[k].len() > 0,
{
}

/// Cleaning a cleaned book changes nothing.
pub proof fn law_clean_is_idempotent(m: BookModel)
    ensures
        clean_model(clean_model(m)) == clean_model(m),
{
    law_clean_drops_only_empty_levels(m.bid);
    law_clean_drops_only_empty_levels(m.ask);
}

/// A book that has an instrument refuses a tick for any other instrument.
pub proof fn law_foreign_instrument_refused(m: BookModel, t: Tick)
    requires
        m.instrument.len() > 0,
        m.instrument != t.instrument@,
    ensures
        apply_tick(m, t) is None,
{
}

/// The first accepted tick names the book's instrument, and it never
/// changes after that; the book's date is the date of the last accepted tick.
pub proof fn law_instrument_is_fixed(m: BookModel, t: Tick)
    requires
        apply_tick(m, t) is Some,
    ensures
        apply_tick(m, t).unwrap().instrument == t.instrument@,
        m.instrument.len() > 0 ==> apply_tick(m, t).unwrap().instrument == m.instrument,
        apply_tick(m, t).unwrap().date == t.date@,
{
}

/// A tick changes only the side it names (its quotes leave the other side
/// as it was), a snapshot tick changes no level, and the price grid never
/// changes.
pub proof fn law_tick_touches_its_side_only(m: BookModel, t: Tick)
    requires
        apply_tick(m, t) is Some,
    ensures
        apply_tick(m, t).unwrap().price_step == m.price_step,
        apply_tick(m, t).unwrap().price_step_inv == m.price_step_inv,
        is_bid_side(t.side@) ==> apply_tick(m, t).unwrap().ask == m.ask,
        !is_bid_side(t.side@) ==> apply_tick(m, t).unwrap().bid == m.bid,
        t.quotes is Vec ==> apply_tick(m, t).unwrap().bid == m.bid && apply_tick(m, t).unwrap().ask == m.ask,
{
}

/// The quotes of a level that carry id `id`, in order.
pub open spec fn id_quotes(l: Seq<L3Quote>, id: i64) -> Seq<L3Quote> {
    l.filter(id_is(id))
}

/// The side holds `q` once and no other quote with its id: level `key` has
/// `q` as its only quote with that id, and no other level has one.
pub open spec fn holds_once<K>(s: Map<K, Seq<L3Quote>>, key: K, q: L3Quote) -> bool {
    &&& s.contains_key(key)
    &&& id_quotes(s[key], q.id) == seq![q]
    &&& forall|k: K| #[trigger] s.contains_key(k) && k != key ==> id_quotes(s[k], q.id).len() == 0
}

/// The side with every quote whose id is in `ids` taken out: each level
/// keeps exactly its other quotes, in order.
pub open spec fn side_without_ids<K>(s: Map<K, Seq<L3Quote>>, ids: Seq<i64>) -> Map<K, Seq<L3Quote>> {
    Map::new(|k: K| s.contains_key(k), |k: K| s[k].filter(|q: L3Quote| !ids.contains(q.id)))
}

/// A filter that keeps nothing gives the empty sequence.
proof fn lemma_filter_none(l: Seq<L3Quote>, p: spec_fn(L3Quote) -> bool)
    requires
        forall|x: L3Quote| !#[trigger] p(x),
    ensures
        l.filter(p).len() == 0,
    decreases l.len(),
{
    reveal_with_fuel(Seq::filter, 2);
    if l.len() > 0 {
        lemma_filter_none(l.drop_last(), p);
    }
}

/// A filter that keeps everything gives the sequence back.
pub(crate) proof fn lemma_filter_all(l: Seq<L3Quote>, p: spec_fn(L3Quote) -> bool)
    requires
        forall|x: L3Quote| #[trigger] p(x),
    ensures
        l.filter(p) == l,
    decreases l.len(),
{
    reveal_with_fuel(Seq::filter, 2);
    if l.len() > 0 {
        lemma_filter_all(l.drop_last(), p);
        assert(l.drop_last().push(l.last()) =~= l);
    }
}

/// Removing one more id from a side without `ids` gives the side without
/// `ids` and that id.
pub(crate) proof fn lemma_without_ids_push<K>(s: Map<K, Seq<L3Quote>>, ids: Seq<i64>, id: i64)
    ensures
        side_remove_id(side_without_ids(s, ids), id) == side_without_ids(s, ids.push(id)),
{
    let lhs = side_remove_id(side_without_ids(s, ids), id);
    let rhs = side_without_ids(s, ids.push(id));
    let p = |q: L3Quote| !ids.contains(q.id);
    let target = |q: L3Quote| !ids.push(id).contains(q.id);
    assert forall|x: L3Quote| #[trigger] both(p, id_is_not(id))(x) == target(x) by {
        if ids.contains(x.id) {
            let j = choose|j: int| 0 <= j < ids.len() && ids[j] == x.id;
            assert(ids.push(id)[j] == x.id);
        }
        if x.id == id {
            assert(ids.push(id)[ids.len() as int] == id);
        }
        if ids.push(id).contains(x.id) {
            let j = choose|j: int| 0 <= j < ids.push(id).len() && ids.push(id)[j] == x.id;
            if j < ids.len() {
                assert(ids[j] == x.id);
            }
        }
    }
    assert forall|k: K| #[trigger] s.contains_key(k) implies lhs[k] == rhs[k] by {
        law_level_without_is_filter(s[k].filter(p), id);
        lemma_filter_filter(s[k], p, id_is_not(id));
        lemma_filter_same_pred(s[k], both(p, id_is_not(id)), target);
    }
    assert(lhs =~= rhs);
}

/// Deleting the ids `ids` takes out of every level exactly the quotes whose
/// id is one of `ids`, and keeps every other quote in its order; the side
/// keeps all its levels.
pub proof fn law_delete_all_removes_exactly_the_ids(s: Map<i64, Seq<L3Quote>>, ids: Seq<i64>)
    ensures
        side_delete_all(s, ids) == side_without_ids(s, ids),
    decreases ids.len(),
{
    if ids.len() == 0 {
        assert forall|k: i64| #[trigger] s.contains_key(k) implies s[k].filter(|q: L3Quote| !ids.contains(q.id)) == s[k] by {
            lemma_filter_all(s[k], |q: L3Quote| !ids.contains(q.id));
        }
        assert(side_without_ids(s, ids) =~= s);
    } else {
        law_delete_all_removes_exactly_the_ids(s, ids.drop_last());
        lemma_without_ids_push(s, ids.drop_last(), ids.last());
        assert(ids.drop_last().push(ids.last()) =~= ids);
    }
}

/// A change makes the side hold the new quote once, at its level, and no
/// other quote with its id.
pub proof fn lemma_change_holds_new<K>(prev: Map<K, Seq<L3Quote>>, key: K, p: L3Quote)
    ensures
        holds_once(side_add(side_remove_id(prev, p.id), key, p), key, p),
{
    reveal_with_fuel(Seq::filter, 1);
    let r = side_remove_id(prev, p.id);
    let a = side_add(r, key, p);
    assert forall|k: K| #[trigger] r.contains_key(k) implies id_quotes(r[k], p.id).len() == 0 by {
        law_level_without_is_filter(prev[k], p.id);
        lemma_filter_filter(prev[k], id_is_not(p.id), id_is(p.id));
        lemma_filter_none(prev[k], both(id_is_not(p.id), id_is(p.id)));
    }
    let prior = if r.contains_key(key) { r[key] } else { Seq::<L3Quote>::empty() };
    law_add_queues_at_back(r, key, p);
    prior.lemma_filter_push(p, id_is(p.id));
    if !r.contains_key(key) {
        assert(prior.filter(id_is(p.id)) == prior);
    }
    assert(id_quotes(prior, p.id) =~= Seq::<L3Quote>::empty());
    assert(id_quotes(a[key], p.id) =~= seq![p]);
}

/// A change of another id leaves a quote held once as it was.
pub proof fn lemma_change_keeps_held<K>(prev: Map<K, Seq<L3Quote>>, key: K, q: L3Quote, key2: K, p: L3Quote)
    requires
        holds_once(prev, key, q),
        p.id != q.id,
    ensures
        holds_once(side_add(side_remove_id(prev, p.id), key2, p), key, q),
{
    reveal_with_fuel(Seq::filter, 1);
    let r = side_remove_id(prev, p.id);
    let a = side_add(r, key2, p);
    assert forall|k: K| #[trigger] r.contains_key(k) implies id_quotes(r[k], q.id) == id_quotes(prev[k], q.id) by {
        law_level_without_is_filter(prev[k], p.id);
        lemma_filter_filter(prev[k], id_is_not(p.id), id_is(q.id));
        lemma_filter_same_pred(prev[k], both(id_is_not(p.id), id_is(q.id)), id_is(q.id));
    }
    law_add_queues_at_back(r, key2, p);
    let prior = if r.contains_key(key2) { r[key2] } else { Seq::<L3Quote>::empty() };
    prior.lemma_filter_push(p, id_is(q.id));
    if !r.contains_key(key2) {
        assert(prior.filter(id_is(q.id)) == prior);
    }
    assert(id_quotes(a[key2], q.id) == id_quotes(prior, q.id));
    assert forall|k: K| #[trigger] a.contains_key(k) && k != key implies id_quotes(a[k], q.id).len() == 0 by {
        if k != key2 {
            assert(a[k] == r[k]);
        }
    }
}

/// Applying changes one after another is applying the list: the list with
/// one more change is the list, then that change.
pub proof fn law_change_all_push(s: Map<i64, Seq<L3Quote>>, qs: Seq<PricedQuote>, pq: PricedQuote)
    ensures
        side_change_all(s, qs.push(pq)) == side_change(side_change_all(s, qs), pq),
{
    assert(qs.push(pq).drop_last() =~= qs);
}

/// After the changes of a list, every changed quote that no later change of
/// the list moves again is held once, at its new level, and no other quote
/// carries its id.
pub proof fn law_change_all_holds_each_change(s: Map<i64, Seq<L3Quote>>, qs: Seq<PricedQuote>, j: int)
    requires
        0 <= j < qs.len(),
        forall|k: int| j < k < qs.len() ==> (#[trigger] qs[k]).quote.id != qs[j].quote.id,
    ensures
        holds_once(side_change_all(s, qs), qs[j].price_key, qs[j].quote),
    decreases qs.len(),
{
    let prev = side_change_all(s, qs.drop_last());
    let last = qs.last();
    if j == qs.len() - 1 {
        lemma_change_holds_new(prev, last.price_key, last.quote);
    } else {
        assert forall|k: int| j < k < qs.drop_last().len() implies (#[trigger] qs.drop_last()[k]).quote.id != qs.drop_last()[j].quote.id by {
            assert(qs.drop_last()[k] == qs[k]);
        }
        law_change_all_holds_each_change(s, qs.drop_last(), j);
        assert(qs.drop_last()[j] == qs[j]);
        assert(qs[qs.len() - 1].quote.id != qs[j].quote.id);
        lemma_change_keeps_held(prev, qs[j].price_key, qs[j].quote, last.price_key, last.quote);
    }
}

/// A tick's deletions leave on its side exactly the quotes whose id is not
/// in its deleted list: the side after the tick is the side after its
/// additions and changes with those ids taken out of every level.
pub proof fn law_tick_deletes_its_ids(m: BookModel, t: Tick)
    requires
        apply_tick(m, t) is Some,
        t.quotes is Quotes,
    ensures
        ({
            let q = t.quotes->Quotes_0;
            let after = apply_tick(m, t).unwrap();
            let s = if is_bid_side(t.side@) { m.bid } else { m.ask };
            let got = if is_bid_side(t.side@) { after.bid } else { after.ask };
            got == side_without_ids(side_change_all(side_add_all(s, q.added@), q.changed@), q.deleted@)
        }),
{
    let q = t.quotes->Quotes_0;
    let s = if is_bid_side(t.side@) { m.bid } else { m.ask };
    law_delete_all_removes_exactly_the_ids(side_change_all(side_add_all(s, q.added@), q.changed@), q.deleted@);
}

/// Deleting ids one after another is deleting the list: the list with one
/// more id is the list, then that id.
pub proof fn law_delete_all_push(s: Map<i64, Seq<L3Quote>>, ids: Seq<i64>, id: i64)
    ensures
        side_delete_all(s, ids.push(id)) == side_remove_id(side_delete_all(s, ids), id),
{
    assert(ids.push(id).drop_last() =~= ids);
}

/// Whether a priced quote belongs to level `k`.
pub open spec fn at_key(k: i64) -> spec_fn(PricedQuote) -> bool {
    |pq: PricedQuote| pq.price_key == k
}

/// The side with the quotes `qs` queued: each level holds what it held,
/// followed by the quotes of `qs` for that level in their order; a level
/// opens when a quote of `qs` is for it.
pub open spec fn side_with_added(s: Map<i64, Seq<L3Quote>>, qs: Seq<PricedQuote>) -> Map<i64, Seq<L3Quote>> {
    Map::new(
        |k: i64| s.contains_key(k) || exists|i: int| 0 <= i < qs.len() && #[trigger] qs[i].price_key == k,
        |k: i64| (if s.contains_key(k) { s[k] } else { Seq::empty() })
            + qs.filter(at_key(k)).map_values(|pq: PricedQuote| pq.quote),
    )
}

/// Additions are all queued, in order: after the additions of a list every
/// level holds what it held followed by the list's quotes for that level,
/// in the list's order.
pub proof fn law_add_all_queues_every_quote(s: Map<i64, Seq<L3Quote>>, qs: Seq<PricedQuote>)
    ensures
        side_add_all(s, qs) == side_with_added(s, qs),
    decreases qs.len(),
{
    reveal_with_fuel(Seq::filter, 1);
    if qs.len() == 0 {
        assert forall|k: i64| #[trigger] s.contains_key(k) implies side_with_added(s, qs)[k] == s[k] by {
            assert(qs.filter(at_key(k)).map_values(|pq: PricedQuote| pq.quote) =~= Seq::<L3Quote>::empty());
            assert(s[k] + Seq::<L3Quote>::empty() =~= s[k]);
        }
        assert(side_with_added(s, qs) =~= s);
    } else {
        let front = qs.drop_last();
        let last = qs.last();
        law_add_all_queues_every_quote(s, front);
        let prev = side_with_added(s, front);
        let got = side_add(prev, last.price_key, last.quote);
        let want = side_with_added(s, qs);
        assert(front.push(last) =~= qs);
        assert forall|k: i64| #[trigger] got.contains_key(k) == want.contains_key(k) by {
            if exists|i: int| 0 <= i < front.len() && #[trigger] front[i].price_key == k {
                let i = choose|i: int| 0 <= i < front.len() && #[trigger] front[i].price_key == k;
                assert(qs[i] == front[i]);
            }
            if exists|i: int| 0 <= i < qs.len() && #[trigger] qs[i].price_key == k {
                let i = choose|i: int| 0 <= i < qs.len() && #[trigger] qs[i].price_key == k;
                if i < front.len() {
                    assert(front[i] == qs[i]);
                }
            }
            assert(qs[qs.len() - 1] == last);
        }
        assert forall|k: i64| #[trigger] want.contains_key(k) implies got[k] == want[k] by {
            front.lemma_filter_push(last, at_key(k));
            let prior = if s.contains_key(k) { s[k] } else { Seq::<L3Quote>::empty() };
            let f = |pq: PricedQuote| pq.quote;
            if k == last.price_key {
                assert(front.filter(at_key(k)).push(last).map_values(f)
                    =~= front.filter(at_key(k)).map_values(f).push(last.quote));
                if !prev.contains_key(k) {
                    assert(!s.contains_key(k));
                    assert forall|i: int| 0 <= i < front.len() implies #[trigger] front[i].price_key != k by {}
                    lemma_priced_filter_none(front, at_key(k));
                    assert(prior + front.filter(at_key(k)).map_values(f) =~= Seq::<L3Quote>::empty());
                }
                assert(got[k] =~= want[k]);
            } else {
                assert(got[k] == prev[k]);
            }
        }
        assert(got =~= want);
    }
}

/// A filter of priced quotes that keeps none of them is empty.
proof fn lemma_priced_filter_none(l: Seq<PricedQuote>, p: spec_fn(PricedQuote) -> bool)
    requires
        forall|i: int| 0 <= i < l.len() ==> !p(#[trigger] l[i]),
    ensures
        l.filter(p).len() == 0,
    decreases l.len(),
{
    reveal_with_fuel(Seq::filter, 1);
    if l.len() > 0 {
        assert forall|i: int| 0 <= i < l.drop_last().len() implies !p(#[trigger] l.drop_last()[i]) by {
            assert(l.drop_last()[i] == l[i]);
        }
        lemma_priced_filter_none(l.drop_last(), p);
        assert(!p(l[l.len() - 1]));
    }
}

} // verus!
