use vstd::prelude::*;
use std::collections::BTreeMap;
use crate::types::{Price, Qty, Side, SymbolId};
use crate::events::OutputEvent;
use vstd::std_specs::iter::IteratorSpec;
use vstd::std_specs::cmp::OrdSpec;

verus! {

broadcast use vstd::std_specs::btree::group_btree_axioms;

/// Keys strictly increasing along `s`.
pub open spec fn increasing_keys(s: Seq<(Price, Qty)>) -> bool {
    forall|i: int, j: int| 0 <= i < j < s.len() ==> s[i].0 < s[j].0
}

/// `s` lists exactly the entries of `m`, by increasing key.
pub open spec fn sorted_entries_of(s: Seq<(Price, Qty)>, m: Map<Price, Qty>) -> bool {
    &&& increasing_keys(s)
    &&& forall|i: int| 0 <= i < s.len() ==> m.contains_key(#[trigger] s[i].0) && m[s[i].0] == s[i].1
    &&& forall|k: Price| #[trigger] m.contains_key(k) ==> exists|i: int| 0 <= i < s.len() && s[i].0 == k
}

fn entries(m: &BTreeMap<Price, Qty>) -> (r: Vec<(Price, Qty)>)
    ensures
        sorted_entries_of(r@, m@),
        r@.len() == m@.dom().len(),
{
    broadcast use vstd::laws_cmp::group_laws_cmp;
    let iter = m.iter();
    assert(vstd::std_specs::btree::key_obeys_cmp_spec::<Price>());
    let ghost s = iter.remaining();
    assert(iter == vstd::std_specs::btree::spec_btree_map_iter(m));
    let mut r: Vec<(Price, Qty)> = Vec::new();
    for kv in it: iter
        invariant
            it.seq() == s,
            r@.len() == it.index(),
            forall|i: int| 0 <= i < it.index() ==> r@[i] == (*s[i].0, *s[i].1),
    {
        r.push((*kv.0, *kv.1));
    }
    proof {
        let keys = s.map_values(|kv: (&Price, &Qty)| *kv.0);
        assert(vstd::std_specs::btree::increasing_seq(keys));
        assert forall|i: int, j: int| 0 <= i < j < r@.len() implies r@[i].0 < r@[j].0 by {
            assert(keys[i] == r@[i].0);
            assert(keys[j] == r@[j].0);
            assert(keys[i].cmp_spec(&keys[j]) is Less);
        }
        assert forall|i: int| 0 <= i < r@.len() implies m@.contains_key(#[trigger] r@[i].0) && m@[r@[i].0]
            == r@[i].1 by {
            assert(m@.contains_key(*s[i].0));
        }
        assert forall|k: Price| #[trigger] m@.contains_key(k) implies exists|i: int|
            0 <= i < r@.len() && r@[i].0 == k by {
            assert(s.contains((&k, &m@[k])));
            let i = choose|i: int| 0 <= i < s.len() && s[i] == (&k, &m@[k]);
            assert(r@[i].0 == k);
        }
    }
    r
}

/// The smaller of two lengths.
pub open spec fn min_len(a: nat, b: nat) -> nat {
    if a <= b {
        a
    } else {
        b
    }
}

/// `r` lists the `depth` lowest prices of `m` (all of them when there are fewer), lowest
/// first, each with its quantity.
pub open spec fn lowest_levels(r: Seq<(Price, Qty)>, m: Map<Price, Qty>, depth: nat) -> bool {
    &&& r.len() == min_len(depth, m.dom().len())
    &&& forall|i: int, j: int| 0 <= i < j < r.len() ==> r[i].0 < r[j].0
    &&& forall|i: int| 0 <= i < r.len() ==> m.contains_key(#[trigger] r[i].0) && m[r[i].0] == r[i].1
    &&& forall|k: Price|
        #[trigger] m.contains_key(k) && (forall|i: int| 0 <= i < r.len() ==> r[i].0 != k) ==> forall|
            i: int,
        |
            0 <= i < r.len() ==> r[i].0 < k
}

/// `r` lists the `depth` highest prices of `m` (all of them when there are fewer),
/// highest first, each with its quantity.
pub open spec fn highest_levels(r: Seq<(Price, Qty)>, m: Map<Price, Qty>, depth: nat) -> bool {
    &&& r.len() == min_len(depth, m.dom().len())
    &&& forall|i: int, j: int| 0 <= i < j < r.len() ==> r[i].0 > r[j].0
    &&& forall|i: int| 0 <= i < r.len() ==> m.contains_key(#[trigger] r[i].0) && m[r[i].0] == r[i].1
    &&& forall|k: Price|
        #[trigger] m.contains_key(k) && (forall|i: int| 0 <= i < r.len() ==> r[i].0 != k) ==> forall|
            i: int,
        |
            0 <= i < r.len() ==> r[i].0 > k
}

fn lowest(m: &BTreeMap<Price, Qty>, depth: usize) -> (r: Vec<(Price, Qty)>)
    ensures
        lowest_levels(r@, m@, depth as nat),
{
    let all = entries(m);
    let n = if depth < all.len() {
        depth
    } else {
        all.len()
    };
    let mut r: Vec<(Price, Qty)> = Vec::new();
    let mut i: usize = 0;
    while i < n
        invariant
            n <= all@.len(),
            i <= n,
            r@ == all@.take(i as int),
        decreases n - i,
    {
        r.push(all[i]);
        assert(all@.take(i + 1) =~= all@.take(i as int).push(all@[i as int]));
        i = i + 1;
    }
    proof {
        let a = all@;
        assert forall|k: Price| #[trigger] m@.contains_key(k) && (forall|i: int| 0 <= i < r@.len() ==> r@[i].0 != k) implies forall|i: int|
            0 <= i < r@.len() ==> r@[i].0 < k by {
            let j = choose|j: int| 0 <= j < a.len() && a[j].0 == k;
            if j < n {
                assert(r@[j].0 == k);
            }
            assert forall|i: int| 0 <= i < r@.len() implies r@[i].0 < k by {
                assert(r@[i] == a[i]);
            }
        }
        assert forall|i: int| 0 <= i < r@.len() implies m@.contains_key(#[trigger] r@[i].0) && m@[r@[i].0]
            == r@[i].1 by {
            assert(r@[i] == a[i]);
        }
    }
    r
}

fn highest(m: &BTreeMap<Price, Qty>, depth: usize) -> (r: Vec<(Price, Qty)>)
    ensures
        highest_levels(r@, m@, depth as nat),
{
    let all = entries(m);
    let len = all.len();
    let n = if depth < len {
        depth
    } else {
        len
    };
    let mut r: Vec<(Price, Qty)> = Vec::new();
    let mut i: usize = 0;
    while i < n
        invariant
            len == all@.len(),
            n <= len,
            i <= n,
            r@.len() == i,
            forall|t: int| 0 <= t < i ==> r@[t] == all@[len - 1 - t],
        decreases n - i,
    {
        r.push(all[len - 1 - i]);
        i = i + 1;
    }
    proof {
        let a = all@;
        assert forall|k: Price| #[trigger] m@.contains_key(k) && (forall|i: int| 0 <= i < r@.len() ==> r@[i].0 != k) implies forall|i: int|
            0 <= i < r@.len() ==> r@[i].0 > k by {
            let j = choose|j: int| 0 <= j < a.len() && a[j].0 == k;
            if j >= len - n {
                assert(r@[len - 1 - j].0 == k);
            }
            assert forall|i: int| 0 <= i < r@.len() implies r@[i].0 > k by {
                assert(r@[i] == a[len - 1 - i]);
            }
        }
        assert forall|i: int| 0 <= i < r@.len() implies m@.contains_key(#[trigger] r@[i].0) && m@[r@[i].0]
            == r@[i].1 by {
            assert(r@[i] == a[len - 1 - i]);
        }
        assert forall|i: int, j: int| 0 <= i < j < r@.len() implies r@[i].0 > r@[j].0 by {
            assert(r@[i] == a[len - 1 - i]);
            assert(r@[j] == a[len - 1 - j]);
        }
    }
    r
}

/// What the market-data feed publishes.
#[derive(Debug, Clone, PartialEq, Eq)]
pub enum FeedMessage {
    /// A trade, with the feed's own sequence number.
    Trade { price: Price, qty: Qty, side: Side, seq: u64, ts: u64 },
    /// The best levels of each side: bids highest first, asks lowest first.
    Snapshot { seq: u64, bids: Vec<(Price, Qty)>, asks: Vec<(Price, Qty)> },
    /// Nothing to publish.
    Nothing,
}

/// Keeps the level-2 view of one symbol's book (open quantity per price on each side)
/// and says what to publish for each event of the engine.
pub struct SnapshotBuilder {
    pub symbol: SymbolId,
    pub sym_str: String,
    pub bids: BTreeMap<Price, Qty>,
    pub asks: BTreeMap<Price, Qty>,
    pub depth: usize,
}

impl SnapshotBuilder {
    /// A builder with empty sides that publishes `depth` levels a side.
    pub fn new(symbol: SymbolId, sym_str: String, depth: usize) -> (b: SnapshotBuilder)
        ensures
            b.symbol == symbol,
            b.sym_str == sym_str,
            b.depth == depth,
            b.bids@ == Map::<Price, Qty>::empty(),
            b.asks@ == Map::<Price, Qty>::empty(),
    {
        SnapshotBuilder { symbol, sym_str, bids: BTreeMap::new(), asks: BTreeMap::new(), depth }
    }

    /// What to publish for an engine event, numbered `seq` by the feed: a trade as a
    /// trade; a fill, partial fill or cancellation as a snapshot of the sides; anything
    /// else nothing. The view is left as it is.
    pub fn process(&mut self, event: &OutputEvent, seq: u64) -> (msg: FeedMessage)
        ensures
            final(self).bids@ == old(self).bids@,
            final(self).asks@ == old(self).asks@,
            final(self).depth == old(self).depth,
            match *event {
                OutputEvent::Trade { price, qty, side, ts, .. } => msg == (FeedMessage::Trade {
                    price,
                    qty,
                    side,
                    seq,
                    ts,
                }),
                OutputEvent::Filled { .. } | OutputEvent::PartiallyFilled { .. }
                | OutputEvent::Cancelled { .. } => msg matches FeedMessage::Snapshot { seq: s, bids, asks }
                    && s == seq && highest_levels(bids@, old(self).bids@, old(self).depth as nat)
                    && lowest_levels(asks@, old(self).asks@, old(self).depth as nat),
                _ => msg == FeedMessage::Nothing,
            },
    {
        match event {
            OutputEvent::Trade { price, qty, side, ts, .. } => FeedMessage::Trade {
                price: *price,
                qty: *qty,
                side: *side,
                seq,
                ts: *ts,
            },
            OutputEvent::Filled { .. } | OutputEvent::PartiallyFilled { .. } | OutputEvent::Cancelled {
                ..
            } => self.publish_snapshot(seq),
            _ => FeedMessage::Nothing,
        }
    }

    /// A snapshot of the best `depth` levels of each side, numbered `seq`.
    pub fn publish_snapshot(&self, seq: u64) -> (msg: FeedMessage)
        ensures
            msg matches FeedMessage::Snapshot { seq: s, bids, asks } && s == seq && highest_levels(
                bids@,
                self.bids@,
                self.depth as nat,
            ) && lowest_levels(asks@, self.asks@, self.depth as nat),
    {
        let bids = highest(&self.bids, self.depth);
        let asks = lowest(&self.asks, self.depth);
        FeedMessage::Snapshot { seq, bids, asks }
    }

    /// Set the open quantity at one price of one side; a price with nothing left leaves
    /// the view.
    pub fn update_level(&mut self, side: Side, price: Price, new_qty: Qty)
        ensures
            final(self).symbol == old(self).symbol,
            final(self).depth == old(self).depth,
            side == Side::Buy ==> final(self).asks@ == old(self).asks@ && final(self).bids@ == (if new_qty == 0 {
                old(self).bids@.remove(price)
            } else {
                old(self).bids@.insert(price, new_qty)
            }),
            side == Side::Sell ==> final(self).bids@ == old(self).bids@ && final(self).asks@ == (if new_qty == 0 {
                old(self).asks@.remove(price)
            } else {
                old(self).asks@.insert(price, new_qty)
            }),
    {
        broadcast use vstd::laws_cmp::group_laws_cmp;
        match side {
            Side::Buy => {
                if new_qty == 0 {
                    self.bids.remove(&price);
                } else {
                    self.bids.insert(price, new_qty);
                }
            },
            Side::Sell => {
                if new_qty == 0 {
                    self.asks.remove(&price);
                } else {
                    self.asks.insert(price, new_qty);
                }
            },
        }
    }
}

} // verus!
