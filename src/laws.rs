//! Laws of merging updates into a book.
use vstd::prelude::*;
use crate::book::{
    apply_level_to, apply_levels_to, before, has_price, is_stale, lemma_side_map_at, lemma_side_map_is,
    next_revision, side_map, side_sorted, Orderbook,
};
use crate::codec::{Decimal, PriceLevel};

verus! {

/// The last index in `ls` of a level at price `p`, or -1.
pub open spec fn last_at(ls: Seq<PriceLevel>, p: Decimal) -> int
    decreases ls.len(),
{
    if ls.len() == 0 {
        -1
    } else if ls.last().price == p {
        ls.len() - 1
    } else {
        last_at(ls.drop_last(), p)
    }
}

/// After a sequence of levels, a price says what the last level at it said,
/// or what it said before if no level is at it.
proof fn lemma_apply_levels_at(m: Map<Decimal, Decimal>, ls: Seq<PriceLevel>, p: Decimal)
    ensures
        -1 <= last_at(ls, p) < ls.len(),
        last_at(ls, p) >= 0 ==> ls[last_at(ls, p)].price == p,
        last_at(ls, p) == -1 ==> (apply_levels_to(m, ls).contains_key(p) == m.contains_key(p) && apply_levels_to(m, ls)[p] == m[p]),
        last_at(ls, p) >= 0 ==> {
            let l = ls[last_at(ls, p)];
            &&& apply_levels_to(m, ls).contains_key(p) == (l.size.units != 0)
            &&& l.size.units != 0 ==> apply_levels_to(m, ls)[p] == l.size
        },
    decreases ls.len(),
{
    if ls.len() > 0 {
        lemma_apply_levels_at(m, ls.drop_last(), p);
    }
}

/// Applying the same levels twice leaves each side as applying them once did;
/// applied again at the revision it brought, the update is stale, and at any
/// newer revision it is taken.
pub proof fn lemma_reapply(m: Map<Decimal, Decimal>, levels: Seq<PriceLevel>, current: u64, revision: u64, later: u64)
    requires
        current < revision < later,
    ensures
        apply_levels_to(apply_levels_to(m, levels), levels) == apply_levels_to(m, levels),
        !is_stale(current, Some(revision)),
        is_stale(next_revision(current, Some(revision)), Some(revision)),
        !is_stale(next_revision(current, Some(revision)), Some(later)),
{
    let once = apply_levels_to(m, levels);
    let twice = apply_levels_to(once, levels);
    assert forall|p: Decimal| #[trigger] twice.contains_key(p) == once.contains_key(p) && (twice.contains_key(p) ==> twice[p] == once[p]) by {
        lemma_apply_levels_at(m, levels, p);
        lemma_apply_levels_at(once, levels, p);
    }
    assert(twice =~= once);
}

/// Levels that each repeat a price the side already holds, at the size it
/// holds, change nothing.
pub proof fn lemma_unchanged_levels(m: Map<Decimal, Decimal>, levels: Seq<PriceLevel>)
    requires
        forall|i: int| 0 <= i < levels.len() ==> {
            &&& (#[trigger] levels[i]).size.units != 0
            &&& m.contains_key(levels[i].price)
            &&& m[levels[i].price] == levels[i].size
        },
    ensures
        apply_levels_to(m, levels) == m,
    decreases levels.len(),
{
    if levels.len() > 0 {
        let init = levels.drop_last();
        assert forall|i: int| 0 <= i < init.len() implies {
            &&& (#[trigger] init[i]).size.units != 0
            &&& m.contains_key(init[i].price)
            &&& m[init[i].price] == init[i].size
        } by {
            assert(init[i] == levels[i]);
        }
        lemma_unchanged_levels(m, init);
        let l = levels.last();
        assert(m.insert(l.price, l.size) =~= m);
    }
}

/// A level of size zero removes its price if the side holds it, and changes
/// nothing if it does not.
pub proof fn lemma_zero_size_removes(m: Map<Decimal, Decimal>, price: Decimal, zero: Decimal)
    requires
        zero.units == 0,
    ensures
        !apply_levels_to(m, seq![PriceLevel { price, size: zero }]).contains_key(price),
        apply_levels_to(m, seq![PriceLevel { price, size: zero }]) == m.remove(price),
        !m.contains_key(price) ==> apply_levels_to(m, seq![PriceLevel { price, size: zero }]) == m,
{
    let ls = seq![PriceLevel { price, size: zero }];
    assert(ls.drop_last() =~= Seq::<PriceLevel>::empty());
    assert(apply_levels_to(m, ls.drop_last()) == m);
    assert(apply_levels_to(m, ls) == apply_level_to(m, ls.last()));
    if !m.contains_key(price) {
        assert(m.remove(price) =~= m);
    }
}

/// A strictly sorted side is determined by the size it holds at each price.
pub proof fn lemma_side_determined(s: Seq<PriceLevel>, t: Seq<PriceLevel>, ascending: bool)
    requires
        side_sorted(s, ascending),
        side_sorted(t, ascending),
        side_map(s) == side_map(t),
    ensures
        s == t,
    decreases s.len(),
{
    lemma_side_map_at(s, ascending);
    lemma_side_map_at(t, ascending);
    if s.len() == 0 {
        if t.len() > 0 {
            assert(side_map(t).contains_key(t[0].price));
            assert(!has_price(s, t[0].price));
        }
        assert(s =~= t);
    } else {
        assert(side_map(t).contains_key(s[0].price));
        assert(t.len() > 0);
        assert(has_price(t, s[0].price));
        assert(has_price(s, t[0].price));
        let j = choose|j: int| 0 <= j < t.len() && (#[trigger] t[j]).price == s[0].price;
        let i = choose|i: int| 0 <= i < s.len() && (#[trigger] s[i]).price == t[0].price;
        if j > 0 {
            assert(before(t[0].price, t[j].price, ascending));
            if i > 0 {
                assert(before(s[0].price, s[i].price, ascending));
            }
        }
        assert(t[0].price == s[0].price);
        assert(s[0] == t[0]);
        let s1 = s.skip(1);
        let t1 = t.skip(1);
        let m1 = side_map(s).remove(s[0].price);
        assert forall|k: int| 0 <= k < s1.len() implies m1.contains_key(#[trigger] s1[k].price) && m1[s1[k].price] == s1[k].size by {
            assert(s1[k] == s[k + 1]);
            assert(before(s[0].price, s[k + 1].price, ascending));
        }
        assert forall|p: Decimal| #[trigger] m1.contains_key(p) implies has_price(s1, p) by {
            let k = choose|k: int| 0 <= k < s.len() && (#[trigger] s[k]).price == p;
            assert(s1[k - 1] == s[k]);
        }
        lemma_side_map_is(s1, m1);
        assert forall|k: int| 0 <= k < t1.len() implies m1.contains_key(#[trigger] t1[k].price) && m1[t1[k].price] == t1[k].size by {
            assert(t1[k] == t[k + 1]);
            assert(before(t[0].price, t[k + 1].price, ascending));
        }
        assert forall|p: Decimal| #[trigger] m1.contains_key(p) implies has_price(t1, p) by {
            assert(side_map(t).contains_key(p));
            let k = choose|k: int| 0 <= k < t.len() && (#[trigger] t[k]).price == p;
            assert(t1[k - 1] == t[k]);
        }
        lemma_side_map_is(t1, m1);
        assert forall|a: int, b: int| 0 <= a < b < s1.len() implies before(#[trigger] s1[a].price, #[trigger] s1[b].price, ascending) by {
            assert(s1[a] == s[a + 1] && s1[b] == s[b + 1]);
        }
        assert forall|a: int, b: int| 0 <= a < b < t1.len() implies before(#[trigger] t1[a].price, #[trigger] t1[b].price, ascending) by {
            assert(t1[a] == t[a + 1] && t1[b] == t[b + 1]);
        }
        lemma_side_determined(s1, t1, ascending);
        assert(s =~= seq![s[0]] + s1);
        assert(t =~= seq![t[0]] + t1);
    }
}

/// Merging levels that the book already holds, at the sizes it holds, leaves
/// both sides exactly as they were.
pub proof fn lemma_unchanged_update_keeps_book(before: Orderbook, after: Orderbook, asks: Seq<PriceLevel>, bids: Seq<PriceLevel>)
    requires
        before.wf(),
        after.wf(),
        after.ask_map() == apply_levels_to(before.ask_map(), asks),
        after.bid_map() == apply_levels_to(before.bid_map(), bids),
        forall|i: int| 0 <= i < asks.len() ==> {
            &&& (#[trigger] asks[i]).size.units != 0
            &&& before.ask_map().contains_key(asks[i].price)
            &&& before.ask_map()[asks[i].price] == asks[i].size
        },
        forall|i: int| 0 <= i < bids.len() ==> {
            &&& (#[trigger] bids[i]).size.units != 0
            &&& before.bid_map().contains_key(bids[i].price)
            &&& before.bid_map()[bids[i].price] == bids[i].size
        },
    ensures
        after@.asks == before@.asks,
        after@.bids == before@.bids,
{
    lemma_unchanged_levels(before.ask_map(), asks);
    lemma_unchanged_levels(before.bid_map(), bids);
    lemma_side_determined(after@.asks, before@.asks, true);
    lemma_side_determined(after@.bids, before@.bids, false);
}

} // verus!
