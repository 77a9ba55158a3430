//! The order book: two price-sorted sides and a revision marker.
use vstd::prelude::*;
use crate::codec::{DecodeError, Decimal, PriceLevel};

verus! {

/// `a` comes before `b` on a side sorted `ascending` (or else descending).
pub open spec fn before(a: Decimal, b: Decimal, ascending: bool) -> bool {
    if ascending {
        a.units < b.units
    } else {
        a.units > b.units
    }
}

/// Strictly sorted by price, so no price occurs twice.
pub open spec fn side_sorted(s: Seq<PriceLevel>, ascending: bool) -> bool {
    forall|i: int, j: int| 0 <= i < j < s.len() ==> before(#[trigger] s[i].price, #[trigger] s[j].price, ascending)
}

/// No level of the side has size zero.
pub open spec fn side_live(s: Seq<PriceLevel>) -> bool {
    forall|i: int| 0 <= i < s.len() ==> (#[trigger] s[i]).size.units > 0
}

pub open spec fn side_wf(s: Seq<PriceLevel>, ascending: bool) -> bool {
    side_sorted(s, ascending) && side_live(s)
}

pub open spec fn has_price(s: Seq<PriceLevel>, p: Decimal) -> bool {
    exists|i: int| 0 <= i < s.len() && (#[trigger] s[i]).price == p
}

/// What a side says: the size resting at each price.
pub open spec fn side_map(s: Seq<PriceLevel>) -> Map<Decimal, Decimal> {
    Map::new(
        |p: Decimal| has_price(s, p),
        |p: Decimal| s[choose|i: int| 0 <= i < s.len() && (#[trigger] s[i]).price == p].size,
    )
}

/// One level of an update: size zero removes the price, any other size sets it.
pub open spec fn apply_level_to(m: Map<Decimal, Decimal>, l: PriceLevel) -> Map<Decimal, Decimal> {
    if l.size.units == 0 {
        m.remove(l.price)
    } else {
        m.insert(l.price, l.size)
    }
}

/// The levels of an update, applied in their order.
pub open spec fn apply_levels_to(m: Map<Decimal, Decimal>, ls: Seq<PriceLevel>) -> Map<Decimal, Decimal>
    decreases ls.len(),
{
    if ls.len() == 0 {
        m
    } else {
        apply_level_to(apply_levels_to(m, ls.drop_last()), ls.last())
    }
}

/// On a sorted side each level is what the map holds at its price.
pub proof fn lemma_side_map_at(s: Seq<PriceLevel>, ascending: bool)
    requires
        side_sorted(s, ascending),
    ensures
        forall|i: int|
            0 <= i < s.len() ==> side_map(s).contains_key(#[trigger] s[i].price) && side_map(s)[s[i].price] == s[i].size,
{
    assert forall|i: int| 0 <= i < s.len() implies side_map(s).contains_key(#[trigger] s[i].price) && side_map(s)[s[i].price] == s[i].size by {
        let p = s[i].price;
        assert(has_price(s, p));
        let j = choose|j: int| 0 <= j < s.len() && (#[trigger] s[j]).price == p;
        if j < i {
            assert(before(s[j].price, s[i].price, ascending));
        } else if i < j {
            assert(before(s[i].price, s[j].price, ascending));
        }
    }
}

/// A map that agrees with every level of a side and holds no other price is its map.
pub proof fn lemma_side_map_is(s: Seq<PriceLevel>, m: Map<Decimal, Decimal>)
    requires
        forall|i: int| 0 <= i < s.len() ==> m.contains_key(#[trigger] s[i].price) && m[s[i].price] == s[i].size,
        forall|p: Decimal| #[trigger] m.contains_key(p) ==> has_price(s, p),
    ensures
        side_map(s) == m,
{
    assert forall|p: Decimal| #[trigger] side_map(s).contains_key(p) <==> m.contains_key(p) by {
        if has_price(s, p) {
            let i = choose|i: int| 0 <= i < s.len() && (#[trigger] s[i]).price == p;
            assert(m.contains_key(s[i].price));
        }
    }
    assert forall|p: Decimal| #[trigger] side_map(s).contains_key(p) implies side_map(s)[p] == m[p] by {
        let i = choose|i: int| 0 <= i < s.len() && (#[trigger] s[i]).price == p;
        assert(m[s[i].price] == s[i].size);
    }
    assert(side_map(s) =~= m);
}

/// Applies one level to a sorted side, keeping it sorted and free of zero sizes.
fn upsert_level(side: &mut Vec<PriceLevel>, level: PriceLevel, ascending: bool)
    requires
        side_wf(old(side)@, ascending),
    ensures
        side_wf(final(side)@, ascending),
        side_map(final(side)@) == apply_level_to(side_map(old(side)@), level),
{
    let ghost s = side@;
    let ghost m = apply_level_to(side_map(s), level);
    proof {
        lemma_side_map_at(s, ascending);
    }
    let p = level.price;
    let mut k: usize = 0;
    while k < side.len()
        invariant
            side@ == s,
            k <= s.len(),
            forall|j: int| 0 <= j < k ==> before(#[trigger] s[j].price, p, ascending),
        ensures
            k <= s.len(),
            forall|j: int| 0 <= j < k ==> before(#[trigger] s[j].price, p, ascending),
            k < s.len() ==> !before(s[k as int].price, p, ascending),
        decreases s.len() - k,
    {
        let q = side[k].price;
        let q_before = if ascending {
            q.units < p.units
        } else {
            q.units > p.units
        };
        if !q_before {
            break;
        }
        k = k + 1;
    }
    // Every price before `k` comes before `p`; the one at `k`, if any, does not.
    let found = k < side.len() && side[k].price.units == p.units;
    if found {
        if level.size.units == 0 {
            side.remove(k);
            proof {
                let t = side@;
                assert forall|i: int| 0 <= i < t.len() implies m.contains_key(#[trigger] t[i].price) && m[t[i].price] == t[i].size by {
                    if i < k {
                        assert(t[i] == s[i]);
                        assert(before(s[i].price, s[k as int].price, ascending));
                    } else {
                        assert(t[i] == s[i + 1]);
                        assert(before(s[k as int].price, s[i + 1].price, ascending));
                    }
                }
                assert forall|other: Decimal| #[trigger] m.contains_key(other) implies has_price(t, other) by {
                    let j = choose|j: int| 0 <= j < s.len() && (#[trigger] s[j]).price == other;
                    if j < k {
                        assert(t[j] == s[j]);
                    } else {
                        assert(j != k);
                        assert(t[j - 1] == s[j]);
                    }
                }
                lemma_side_map_is(t, m);
            }
        } else {
            side.set(k, level);
            proof {
                let t = side@;
                assert forall|i: int| 0 <= i < t.len() implies m.contains_key(#[trigger] t[i].price) && m[t[i].price] == t[i].size by {
                    if i != k {
                        assert(t[i] == s[i]);
                        if i < k {
                            assert(before(s[i].price, s[k as int].price, ascending));
                        } else {
                            assert(before(s[k as int].price, s[i].price, ascending));
                        }
                    }
                }
                assert forall|other: Decimal| #[trigger] m.contains_key(other) implies has_price(t, other) by {
                    if other != p {
                        let j = choose|j: int| 0 <= j < s.len() && (#[trigger] s[j]).price == other;
                        assert(t[j] == s[j]);
                    } else {
                        assert(t[k as int].price == other);
                    }
                }
                lemma_side_map_is(t, m);
            }
        }
    } else {
        proof {
            assert forall|j: int| 0 <= j < s.len() implies (#[trigger] s[j]).price != p by {
                if j < k {
                    assert(before(s[j].price, p, ascending));
                } else {
                    assert(before(p, s[k as int].price, ascending));
                    if j > k {
                        assert(before(s[k as int].price, s[j].price, ascending));
                    }
                }
            }
            assert(!side_map(s).contains_key(p));
        }
        if level.size.units == 0 {
            assert(m =~= side_map(s));
        } else {
            side.insert(k, level);
            proof {
                let t = side@;
                assert forall|i: int| 0 <= i < t.len() implies m.contains_key(#[trigger] t[i].price) && m[t[i].price] == t[i].size by {
                    if i < k {
                        assert(t[i] == s[i]);
                    } else if i > k {
                        assert(t[i] == s[i - 1]);
                    }
                }
                assert forall|other: Decimal| #[trigger] m.contains_key(other) implies has_price(t, other) by {
                    if other != p {
                        let j = choose|j: int| 0 <= j < s.len() && (#[trigger] s[j]).price == other;
                        if j < k {
                            assert(t[j] == s[j]);
                        } else {
                            assert(t[j + 1] == s[j]);
                        }
                    } else {
                        assert(t[k as int].price == other);
                    }
                }
                assert forall|i: int, j: int| 0 <= i < j < t.len() implies before(#[trigger] t[i].price, #[trigger] t[j].price, ascending) by {
                    if j < k {
                    } else if j == k {
                        assert(t[i] == s[i]);
                    } else if i == k {
                        assert(t[j] == s[j - 1]);
                        if j - 1 > k {
                            assert(before(s[k as int].price, s[j - 1].price, ascending));
                        }
                    } else if i < k {
                        assert(t[i] == s[i]);
                        assert(t[j] == s[j - 1]);
                    } else {
                        assert(t[i] == s[i - 1]);
                        assert(t[j] == s[j - 1]);
                    }
                }
                lemma_side_map_is(t, m);
            }
        }
    }
}

/// Applies a sequence of levels to a sorted side, in their order.
fn merge_side(side: &mut Vec<PriceLevel>, levels: &Vec<PriceLevel>, ascending: bool)
    requires
        side_wf(old(side)@, ascending),
    ensures
        side_wf(final(side)@, ascending),
        side_map(final(side)@) == apply_levels_to(side_map(old(side)@), levels@),
{
    let ghost m0 = side_map(side@);
    let mut i: usize = 0;
    while i < levels.len()
        invariant
            i <= levels.len(),
            side_wf(side@, ascending),
            side_map(side@) == apply_levels_to(m0, levels@.take(i as int)),
        decreases levels.len() - i,
    {
        upsert_level(side, levels[i], ascending);
        assert(levels@.take(i + 1).drop_last() =~= levels@.take(i as int));
        i = i + 1;
    }
    assert(levels@.take(levels.len() as int) =~= levels@);
}

/// Why an update was not applied.
#[derive(Clone, Copy, Debug, PartialEq, Eq, Structural)]
pub enum UpdateError {
    /// The payload could not be decoded.
    Decode(DecodeError),
    /// The update's revision is not newer than the book's.
    Stale,
}

/// Decoded update: the levels of each side and the revision it carries, if any.
#[derive(Debug)]
pub struct BookUpdate {
    pub asks: Vec<PriceLevel>,
    pub bids: Vec<PriceLevel>,
    pub revision: Option<u64>,
}

/// An update carrying `revision` is stale on a book at `current`. An update
/// without a revision is never stale.
pub open spec fn is_stale(current: u64, revision: Option<u64>) -> bool {
    match revision {
        Some(r) => r <= current,
        None => false,
    }
}

/// The revision a book holds after an update carrying `revision` was applied.
pub open spec fn next_revision(current: u64, revision: Option<u64>) -> u64 {
    match revision {
        Some(r) => r,
        None => current,
    }
}

/// The abstract state of a book.
pub struct BookState {
    pub asks: Seq<PriceLevel>,
    pub bids: Seq<PriceLevel>,
    pub revision: u64,
}

/// A local order book: asks by ascending price, bids by descending price,
/// and the revision of the snapshot or update that produced it.
pub struct Orderbook {
    asks: Vec<PriceLevel>,
    bids: Vec<PriceLevel>,
    revision: u64,
}

impl View for Orderbook {
    type V = BookState;

    closed spec fn view(&self) -> BookState {
        BookState { asks: self.asks@, bids: self.bids@, revision: self.revision }
    }
}

impl Orderbook {
    /// Asks strictly ascending, bids strictly descending, no zero size.
    pub open spec fn wf(&self) -> bool {
        side_wf(self@.asks, true) && side_wf(self@.bids, false)
    }

    /// Size resting at each ask price.
    pub open spec fn ask_map(&self) -> Map<Decimal, Decimal> {
        side_map(self@.asks)
    }

    /// Size resting at each bid price.
    pub open spec fn bid_map(&self) -> Map<Decimal, Decimal> {
        side_map(self@.bids)
    }

    /// A book built from full listings of both sides at `revision`, as an
    /// update applied to an empty book.
    pub fn from_levels(asks: &Vec<PriceLevel>, bids: &Vec<PriceLevel>, revision: u64) -> (r: Orderbook)
        ensures
            r.wf(),
            r.ask_map() == apply_levels_to(Map::empty(), asks@),
            r.bid_map() == apply_levels_to(Map::empty(), bids@),
            r@.revision == revision,
    {
        let mut book = Orderbook { asks: Vec::new(), bids: Vec::new(), revision };
        assert(side_map(Seq::<PriceLevel>::empty()) =~= Map::<Decimal, Decimal>::empty());
        merge_side(&mut book.asks, asks, true);
        merge_side(&mut book.bids, bids, false);
        book
    }

    /// Applies a decoded update. A stale one is refused and leaves the book
    /// as it was; otherwise both sides take its levels and the book takes its
    /// revision.
    pub fn apply(&mut self, update: &BookUpdate) -> (r: Result<(), UpdateError>)
        requires
            old(self).wf(),
        ensures
            final(self).wf(),
            r is Err <==> is_stale(old(self)@.revision, update.revision),
            r is Err ==> r == Err::<(), UpdateError>(UpdateError::Stale) && final(self)@ == old(self)@,
            r is Ok ==> {
                &&& final(self).ask_map() == apply_levels_to(old(self).ask_map(), update.asks@)
                &&& final(self).bid_map() == apply_levels_to(old(self).bid_map(), update.bids@)
                &&& final(self)@.revision == next_revision(old(self)@.revision, update.revision)
            },
    {
        if let Some(rev) = update.revision {
            if rev <= self.revision {
                return Err(UpdateError::Stale);
            }
            self.revision = rev;
        }
        merge_side(&mut self.asks, &update.asks, true);
        merge_side(&mut self.bids, &update.bids, false);
        Ok(())
    }

    /// The ask levels, best (lowest) price first.
    pub fn asks(&self) -> (r: &Vec<PriceLevel>)
        ensures
            r@ == self@.asks,
    {
        &self.asks
    }

    /// The bid levels, best (highest) price first.
    pub fn bids(&self) -> (r: &Vec<PriceLevel>)
        ensures
            r@ == self@.bids,
    {
        &self.bids
    }

    /// The revision of the snapshot or update that produced this state.
    pub fn revision(&self) -> (r: u64)
        ensures
            r == self@.revision,
    {
        self.revision
    }
}

} // verus!
