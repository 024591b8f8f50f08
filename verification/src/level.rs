use vstd::prelude::*;
use std::collections::VecDeque;
use crate::quote::L3Quote;

verus! {

/// The queue `level` with every quote whose id is `id` taken out,
/// the others kept in their order.
pub open spec fn level_without(level: Seq<L3Quote>, id: i64) -> Seq<L3Quote>
    decreases level.len(),
{
    if level.len() == 0 {
        Seq::empty()
    } else {
        let rest = level_without(level.drop_last(), id);
        if level.last().id == id {
            rest
        } else {
            rest.push(level.last())
        }
    }
}

/// Whether a quote carries id `id`.
pub open spec fn id_is(id: i64) -> spec_fn(L3Quote) -> bool {
    |q: L3Quote| q.id == id
}

/// Whether a quote carries another id than `id`.
pub open spec fn id_is_not(id: i64) -> spec_fn(L3Quote) -> bool {
    |q: L3Quote| q.id != id
}

/// Both predicates hold.
pub open spec fn both(p: spec_fn(L3Quote) -> bool, q: spec_fn(L3Quote) -> bool) -> spec_fn(L3Quote) -> bool {
    |x: L3Quote| p(x) && q(x)
}

/// Filtering by one predicate and then another is filtering by both.
pub proof fn lemma_filter_filter(l: Seq<L3Quote>, p: spec_fn(L3Quote) -> bool, q: spec_fn(L3Quote) -> bool)
    ensures
        l.filter(p).filter(q) == l.filter(both(p, q)),
    decreases l.len(),
{
    reveal_with_fuel(Seq::filter, 2);
    if l.len() > 0 {
        lemma_filter_filter(l.drop_last(), p, q);
        let r = both(p, q);
        assert(l.filter(r) == if r(l.last()) { l.drop_last().filter(r).push(l.last()) } else { l.drop_last().filter(r) });
        if p(l.last()) {
            assert(l.filter(p) == l.drop_last().filter(p).push(l.last()));
            assert(l.filter(p).drop_last() =~= l.drop_last().filter(p));
            assert(l.filter(p).last() == l.last());
        } else {
            assert(l.filter(p) == l.drop_last().filter(p));
        }
    }
}

/// Filtering by two predicates that agree everywhere gives the same result.
pub proof fn lemma_filter_same_pred(l: Seq<L3Quote>, p: spec_fn(L3Quote) -> bool, q: spec_fn(L3Quote) -> bool)
    requires
        forall|x: L3Quote| #[trigger] p(x) == q(x),
    ensures
        l.filter(p) == l.filter(q),
{
    assert(p =~= q);
}

/// Removing an id from a level is filtering the level by "another id":
/// every quote with another id stays, in its order, and only those.
pub proof fn law_level_without_is_filter(level: Seq<L3Quote>, id: i64)
    ensures
        level_without(level, id) == level.filter(id_is_not(id)),
    decreases level.len(),
{
    reveal_with_fuel(Seq::filter, 2);
    if level.len() > 0 {
        law_level_without_is_filter(level.drop_last(), id);
    }
}

/// No quote with id `id` is left in a level after its removal.
pub proof fn lemma_level_without_drops_id(level: Seq<L3Quote>, id: i64)
    ensures
        forall|i: int| 0 <= i < level_without(level, id).len() ==> (#[trigger] level_without(level, id)[i]).id != id,
    decreases level.len(),
{
    if level.len() > 0 {
        let rest = level_without(level.drop_last(), id);
        lemma_level_without_drops_id(level.drop_last(), id);
        assert forall|i: int| 0 <= i < level_without(level, id).len()
            implies (#[trigger] level_without(level, id)[i]).id != id by {
            if i < rest.len() {
                assert(level_without(level, id)[i] == rest[i]);
            }
        }
    }
}

/// Removing an id that no quote of the level carries leaves the level as it is.
pub proof fn lemma_level_without_absent(level: Seq<L3Quote>, id: i64)
    requires
        forall|i: int| 0 <= i < level.len() ==> (#[trigger] level[i]).id != id,
    ensures
        level_without(level, id) == level,
    decreases level.len(),
{
    if level.len() > 0 {
        lemma_level_without_absent(level.drop_last(), id);
        assert(level.drop_last().push(level.last()) =~= level);
    }
}

/// Returns the quotes of `level` whose id differs from `id`, in their order.
pub fn retain_other_ids(level: &VecDeque<L3Quote>, id: i64) -> (kept: VecDeque<L3Quote>)
    ensures
        kept@ == level_without(level@, id),
        kept@ == level@.filter(id_is_not(id)),
{
    proof {
        law_level_without_is_filter(level@, id);
    }
    let mut kept: VecDeque<L3Quote> = VecDeque::new();
    let n = level.len();
    let mut i: usize = 0;
    while i < n
        invariant
            n == level@.len(),
            i <= n,
            kept@ == level_without(level@.take(i as int), id),
        decreases n - i,
    {
        let q: L3Quote = level[i];
        assert(level@.take(i + 1).drop_last() =~= level@.take(i as int));
        if q.id != id {
            kept.push_back(q);
        }
        i = i + 1;
    }
    assert(level@.take(n as int) =~= level@);
    kept
}

/// The quotes of `level` in a vector, oldest first.
pub fn level_to_vec(level: &VecDeque<L3Quote>) -> (quotes: Vec<L3Quote>)
    ensures
        quotes@ == level@,
{
    let mut quotes: Vec<L3Quote> = Vec::new();
    let n = level.len();
    let mut i: usize = 0;
    while i < n
        invariant
            n == level@.len(),
            i <= n,
            quotes@ == level@.take(i as int),
        decreases n - i,
    {
        quotes.push(level[i]);
        i = i + 1;
        assert(quotes@ =~= level@.take(i as int));
    }
    assert(level@.take(n as int) =~= level@);
    quotes
}

} // verus!
