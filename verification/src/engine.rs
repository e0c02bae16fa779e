use vstd::prelude::*;
use crate::types::{Price, SymbolId};
use crate::events::{OutputEvent, Sequenced};
use crate::book::OrderBook;
use crate::matcher::{apply, incoming_qty};
use crate::model::apply_spec;
use crate::laws::lemma_book_fits;

verus! {

/// The shard that owns a symbol: the symbol modulo the number of shards.
pub open spec fn shard_of(symbol: SymbolId, num_shards: usize) -> int {
    symbol as int % num_shards as int
}

/// The shard that owns `symbol` among `num_shards` shards; the same symbol always goes
/// to the same shard.
pub fn shard_for(symbol: SymbolId, num_shards: usize) -> (s: usize)
    requires
        num_shards > 0,
    ensures
        s == shard_of(symbol, num_shards),
        s < num_shards,
{
    (symbol as usize) % num_shards
}

/// Split the configured symbols among the shards, keeping their order within each shard.
pub fn partition_symbols(symbols: &Vec<(SymbolId, Price)>, num_shards: usize) -> (r: Vec<
    Vec<(SymbolId, Price)>,
>)
    requires
        num_shards > 0,
    ensures
        r@.len() == num_shards,
        forall|s: int|
            0 <= s < num_shards ==> (#[trigger] r@[s])@ == symbols@.filter(
                |x: (SymbolId, Price)| shard_of(x.0, num_shards) == s,
            ),
{
    let mut r: Vec<Vec<(SymbolId, Price)>> = Vec::new();
    let mut k: usize = 0;
    while k < num_shards
        invariant
            k <= num_shards,
            r@.len() == k,
            forall|s: int| 0 <= s < k ==> (#[trigger] r@[s])@.len() == 0,
        decreases num_shards - k,
    {
        r.push(Vec::new());
        k = k + 1;
    }
    let ghost xs = symbols@;
    let mut i: usize = 0;
    assert forall|s: int| 0 <= s < num_shards implies (#[trigger] r@[s])@ == xs.take(0).filter(
        |x: (SymbolId, Price)| shard_of(x.0, num_shards) == s,
    ) by {
        assert(xs.take(0) =~= Seq::<(SymbolId, Price)>::empty());
        reveal(Seq::filter);
        assert(r@[s]@ =~= Seq::<(SymbolId, Price)>::empty());
    }
    while i < symbols.len()
        invariant
            xs == symbols@,
            i <= xs.len(),
            r@.len() == num_shards,
            num_shards > 0,
            forall|s: int|
                0 <= s < num_shards ==> (#[trigger] r@[s])@ == xs.take(i as int).filter(
                    |x: (SymbolId, Price)| shard_of(x.0, num_shards) == s,
                ),
        decreases xs.len() - i,
    {
        let (sym, tick) = symbols[i];
        let t = shard_for(sym, num_shards);
        let ghost before = r@;
        let mut bucket = r.remove(t);
        bucket.push((sym, tick));
        r.insert(t, bucket);
        assert forall|s: int| 0 <= s < num_shards implies (#[trigger] r@[s])@ == xs.take(i + 1).filter(
            |x: (SymbolId, Price)| shard_of(x.0, num_shards) == s,
        ) by {
            reveal(Seq::filter);
            assert(xs.take(i + 1).drop_last() =~= xs.take(i as int));
            assert(xs.take(i + 1).last() == xs[i as int]);
            if s == t {
                assert(r@[s]@ =~= before[s]@.push((sym, tick)));
            } else {
                assert(r@[s] == before[s]);
            }
        }
        i = i + 1;
    }
    assert(xs.take(i as int) =~= xs);
    r
}

/// The tick size a symbol is configured with: its last entry in the list, if any.
pub open spec fn configured_tick(symbols: Seq<(SymbolId, Price)>, symbol: SymbolId) -> Option<Price>
    decreases symbols.len(),
{
    if symbols.len() == 0 {
        None
    } else if symbols.last().0 == symbol {
        Some(symbols.last().1)
    } else {
        configured_tick(symbols.drop_last(), symbol)
    }
}

/// Index of the book of `symbol` among `books`.
pub open spec fn book_index(books: Seq<OrderBook>, symbol: SymbolId) -> Option<int> {
    if exists|i: int| 0 <= i < books.len() && (#[trigger] books[i]).symbol == symbol {
        Some(choose|i: int| 0 <= i < books.len() && (#[trigger] books[i]).symbol == symbol)
    } else {
        None
    }
}

/// The books of one shard, one per symbol.
pub struct ShardBooks {
    pub books: Vec<OrderBook>,
}

impl ShardBooks {
    /// One book per symbol, each well formed, holding no order identifier twice and with its
    /// identifier index in step, with no symbol twice.
    pub open spec fn wf(&self) -> bool {
        &&& forall|i: int, j: int|
            0 <= i < j < self.books@.len() ==> (#[trigger] self.books@[i]).symbol != (
            #[trigger] self.books@[j]).symbol
        &&& forall|i: int| 0 <= i < self.books@.len() ==> (#[trigger] self.books@[i])@.wf()
        &&& forall|i: int| 0 <= i < self.books@.len() ==> (#[trigger] self.books@[i]).indexed()
    }

    /// An empty book for each configured symbol, with the tick size of its last entry.
    pub fn new(symbols: &Vec<(SymbolId, Price)>) -> (s: ShardBooks)
        ensures
            s.wf(),
            forall|sym: SymbolId|
                (#[trigger] book_index(s.books@, sym) is Some) <==> configured_tick(symbols@, sym) is Some,
            forall|i: int|
                0 <= i < s.books@.len() ==> {
                    let b = #[trigger] s.books@[i];
                    &&& configured_tick(symbols@, b.symbol) == Some(b.tick)
                    &&& b.seq == 0
                    &&& b@.bids.len() == 0
                    &&& b@.asks.len() == 0
                    &&& b@.stop_buys.len() == 0
                    &&& b@.stop_sells.len() == 0
                    &&& b@.last_trade is None
                },
    {
        let mut s = ShardBooks { books: Vec::new() };
        let ghost xs = symbols@;
        let mut i: usize = 0;
        while i < symbols.len()
            invariant
                xs == symbols@,
                i <= xs.len(),
                s.wf(),
                forall|sym: SymbolId|
                    (#[trigger] book_index(s.books@, sym) is Some) <==> configured_tick(xs.take(i as int), sym) is Some,
                forall|k: int|
                    0 <= k < s.books@.len() ==> {
                        let b = #[trigger] s.books@[k];
                        &&& configured_tick(xs.take(i as int), b.symbol) == Some(b.tick)
                        &&& b.seq == 0
                        &&& b@.bids.len() == 0
                        &&& b@.asks.len() == 0
                        &&& b@.stop_buys.len() == 0
                        &&& b@.stop_sells.len() == 0
                        &&& b@.last_trade is None
                    },
            decreases xs.len() - i,
        {
            let (sym, tick) = symbols[i];
            let ghost before = s.books@;
            let fresh = OrderBook::new(sym, tick);
            let ghost pos: int;
            match s.find(sym) {
                Some(k) => {
                    s.books.set(k, fresh);
                    proof {
                        pos = k as int;
                    }
                },
                None => {
                    s.books.push(fresh);
                    proof {
                        pos = before.len() as int;
                    }
                },
            }
            proof {
                let take0 = xs.take(i as int);
                let take1 = xs.take(i + 1);
                assert(take1.drop_last() =~= take0);
                assert(take1.last() == (sym, tick));
                assert(configured_tick(take1, sym) == Some(tick));
                assert(s.books@[pos].symbol == sym);
                assert(forall|j: int| 0 <= j < s.books@.len() && j != pos ==> s.books@[j] == before[j]);
                assert forall|a: int, c: int|
                    0 <= a < c < s.books@.len() implies (#[trigger] s.books@[a]).symbol != (
                    #[trigger] s.books@[c]).symbol by {
                    if a != pos && c != pos {
                        assert(s.books@[a] == before[a]);
                        assert(s.books@[c] == before[c]);
                    } else if a == pos && c < before.len() {
                        assert(s.books@[c] == before[c]);
                        if pos < before.len() {
                            assert(before[pos].symbol == sym);
                        } else {
                            assert(book_index(before, sym) is None);
                            assert(!(0 <= c < before.len() && before[c].symbol == sym));
                        }
                    } else if c == pos && a < before.len() {
                        assert(s.books@[a] == before[a]);
                        if pos < before.len() {
                            assert(before[pos].symbol == sym);
                        } else {
                            assert(book_index(before, sym) is None);
                            assert(!(0 <= a < before.len() && before[a].symbol == sym));
                        }
                    }
                }
                assert forall|k: int| 0 <= k < s.books@.len() implies (#[trigger] s.books@[k])@.wf() by {
                    if k != pos {
                        assert(s.books@[k] == before[k]);
                    }
                }
                assert forall|k: int| 0 <= k < s.books@.len() implies (#[trigger] s.books@[k]).indexed() by {
                    if k != pos {
                        assert(s.books@[k] == before[k]);
                    }
                }
                assert forall|sy: SymbolId| (#[trigger] book_index(s.books@, sy) is Some) <==> configured_tick(
                    take1,
                    sy,
                ) is Some by {
                    if sy == sym {
                        assert(0 <= pos < s.books@.len() && s.books@[pos].symbol == sym);
                    } else {
                        assert(configured_tick(take1, sy) == configured_tick(take0, sy));
                        if book_index(before, sy) is Some {
                            let j = choose|j: int| 0 <= j < before.len() && (#[trigger] before[j]).symbol == sy;
                            assert(j != pos);
                            assert(s.books@[j].symbol == sy);
                        }
                        if book_index(s.books@, sy) is Some {
                            let j = choose|j: int| 0 <= j < s.books@.len() && (#[trigger] s.books@[j]).symbol == sy;
                            assert(j != pos);
                            assert(before[j].symbol == sy);
                        }
                    }
                }
                assert forall|k: int| 0 <= k < s.books@.len() implies {
                    let b = #[trigger] s.books@[k];
                    &&& configured_tick(take1, b.symbol) == Some(b.tick)
                    &&& b.seq == 0
                    &&& b@.bids.len() == 0
                    &&& b@.asks.len() == 0
                    &&& b@.stop_buys.len() == 0
                    &&& b@.stop_sells.len() == 0
                    &&& b@.last_trade is None
                } by {
                    if k != pos {
                        assert(s.books@[k] == before[k]);
                        assert(before[k].symbol != sym);
                        assert(configured_tick(take1, before[k].symbol) == configured_tick(take0, before[k].symbol));
                    }
                }
            }
            i = i + 1;
        }
        assert(xs.take(i as int) =~= xs);
        s
    }

    /// Position of the book of `symbol`.
    fn find(&self, symbol: SymbolId) -> (r: Option<usize>)
        requires
            self.wf(),
        ensures
            r is Some <==> book_index(self.books@, symbol) is Some,
            r matches Some(k) ==> k < self.books@.len() && self.books@[k as int].symbol == symbol,
    {
        let mut k: usize = 0;
        while k < self.books.len()
            invariant
                k <= self.books@.len(),
                forall|j: int| 0 <= j < k ==> (#[trigger] self.books@[j]).symbol != symbol,
            decreases self.books@.len() - k,
        {
            if self.books[k].symbol == symbol {
                return Some(k);
            }
            k = k + 1;
        }
        None
    }

    /// Apply a command to the book of its symbol, appending the events to `out`. Returns
    /// false, with nothing changed, when the shard holds no book for the symbol or the
    /// book could not take the quantity the command brings.
    pub fn process(&mut self, cmd: &Sequenced, out: &mut Vec<OutputEvent>) -> (applied: bool)
        requires
            old(self).wf(),
        ensures
            final(self).wf(),
            final(self).books@.len() == old(self).books@.len(),
            applied ==> {
                let i = book_index(old(self).books@, cmd.cmd.spec_symbol()).unwrap();
                let b = old(self).books@[i];
                &&& book_index(old(self).books@, cmd.cmd.spec_symbol()) is Some
                &&& b@.qty_bound() + incoming_qty(cmd.cmd) <= u64::MAX
                &&& final(self).books@[i]@ == apply_spec(b@, *cmd).0
                &&& final(self).books@[i].symbol == b.symbol
                &&& final(self).books@[i].tick == b.tick
                &&& final(self).books@[i].seq == b.seq
                &&& forall|j: int| 0 <= j < old(self).books@.len() && j != i ==> #[trigger] final(self).books@[j] == old(self).books@[j]
                &&& final(out)@ == old(out)@ + apply_spec(b@, *cmd).1
            },
            !applied ==> {
                &&& final(self).books@ == old(self).books@
                &&& final(out)@ == old(out)@
                &&& (book_index(old(self).books@, cmd.cmd.spec_symbol()) matches Some(i) ==> old(self).books@[i]@.qty_bound() + incoming_qty(cmd.cmd) > u64::MAX)
            },
    {
        let sym = cmd.cmd.symbol();
        match self.find(sym) {
            None => false,
            Some(k) => {
                proof {
                    assert(self.books@[k as int]@.wf());
                    lemma_book_index_unique(self.books@, sym, k as int);
                }
                let room = self.books[k].open_qty();
                let extra = crate::matcher::incoming_qty_exec(&cmd.cmd);
                if room > u64::MAX - extra {
                    return false;
                }
                let ghost before = self.books@;
                let mut b = self.books.remove(k);
                proof {
                    lemma_book_fits(&b);
                }
                apply(&mut b, cmd, out);
                self.books.insert(k, b);
                proof {
                    assert forall|i: int, j: int|
                        0 <= i < j < self.books@.len() implies (#[trigger] self.books@[i]).symbol != (
                        #[trigger] self.books@[j]).symbol by {
                        assert(before[i].symbol == self.books@[i].symbol);
                        assert(before[j].symbol == self.books@[j].symbol);
                    }
                    assert forall|i: int| 0 <= i < self.books@.len() implies (#[trigger] self.books@[i])@.wf() by {
                        if i != k {
                            assert(self.books@[i] == before[i]);
                        }
                    }
                    assert forall|i: int| 0 <= i < self.books@.len() implies (#[trigger] self.books@[i]).indexed() by {
                        if i != k {
                            assert(self.books@[i] == before[i]);
                        }
                    }
                }
                true
            },
        }
    }
}

proof fn lemma_book_index_unique(books: Seq<OrderBook>, symbol: SymbolId, k: int)
    requires
        0 <= k < books.len(),
        books[k].symbol == symbol,
        forall|i: int, j: int| 0 <= i < j < books.len() ==> (#[trigger] books[i]).symbol != (#[trigger] books[j]).symbol,
    ensures
        book_index(books, symbol) == Some(k),
{
    let c = choose|i: int| 0 <= i < books.len() && (#[trigger] books[i]).symbol == symbol;
    assert(0 <= c < books.len() && books[c].symbol == symbol);
    if c < k {
        assert(books[c].symbol != books[k].symbol);
    } else if c > k {
        assert(books[k].symbol != books[c].symbol);
    }
}

} // verus!
