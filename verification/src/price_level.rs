use vstd::prelude::*;
use crate::types::Qty;

verus! {

/// Bookkeeping of one FIFO queue of slots at a price: first and last slot, open quantity
/// and number of entries. Linking the entries themselves is the caller's task.
#[derive(Debug, Clone, Copy)]
pub struct PriceLevel {
    pub head: Option<usize>,
    pub tail: Option<usize>,
    pub total_qty: Qty,
    pub count: usize,
}

impl PriceLevel {
    /// An empty level.
    pub fn new() -> (l: PriceLevel)
        ensures
            l.head is None,
            l.tail is None,
            l.total_qty == 0,
            l.count == 0,
    {
        PriceLevel { head: None, tail: None, total_qty: 0, count: 0 }
    }

    /// A level is empty when it has no first slot.
    pub fn is_empty(&self) -> (r: bool)
        ensures
            r == (self.head is None),
    {
        self.head.is_none()
    }

    /// Append `slot` at the back (time priority: newcomers queue last).
    pub fn push_back(&mut self, slot: usize, qty: Qty)
        requires
            old(self).total_qty + qty <= u64::MAX,
            old(self).count + 1 <= usize::MAX,
        ensures
            final(self).total_qty == old(self).total_qty + qty,
            final(self).count == old(self).count + 1,
            final(self).tail == Some(slot),
            final(self).head == (if old(self).tail is None {
                Some(slot)
            } else {
                old(self).head
            }),
    {
        self.total_qty = self.total_qty + qty;
        self.count = self.count + 1;
        if self.tail.is_none() {
            self.head = Some(slot);
            self.tail = Some(slot);
        } else {
            self.tail = Some(slot);
        }
    }

    /// Remove the first slot and return it: one entry fewer (floored at zero), its
    /// quantity taken off the level total (floored at zero). Taking the last entry leaves
    /// the level empty; otherwise the caller, who holds the links, sets the new `head`.
    pub fn pop_front(&mut self, qty: Qty) -> (r: Option<usize>)
        ensures
            r == old(self).head,
            old(self).head is None ==> *final(self) == *old(self),
            old(self).head is Some ==> {
                &&& final(self).count == (if old(self).count >= 1 {
                    old(self).count - 1
                } else {
                    0
                })
                &&& final(self).total_qty == (if old(self).total_qty >= qty {
                    old(self).total_qty - qty
                } else {
                    0
                })
                &&& final(self).count == 0 ==> final(self).head is None && final(self).tail is None
                &&& final(self).count > 0 ==> final(self).head == old(self).head && final(self).tail
                    == old(self).tail
            },
    {
        match self.head {
            None => None,
            Some(slot) => {
                self.total_qty = self.total_qty.saturating_sub(qty);
                self.count = self.count.saturating_sub(1);
                if self.count == 0 {
                    self.head = None;
                    self.tail = None;
                }
                Some(slot)
            },
        }
    }

    /// Take one entry of `qty` off the level (both counters floored at zero); the caller
    /// unlinks the slot.
    pub fn remove(&mut self, qty: Qty)
        ensures
            final(self).head == old(self).head,
            final(self).tail == old(self).tail,
            final(self).total_qty == (if old(self).total_qty >= qty {
                old(self).total_qty - qty
            } else {
                0
            }),
            final(self).count == (if old(self).count >= 1 {
                old(self).count - 1
            } else {
                0
            }),
    {
        self.total_qty = self.total_qty.saturating_sub(qty);
        self.count = self.count.saturating_sub(1);
    }
}

impl Default for PriceLevel {
    fn default() -> (l: PriceLevel)
        ensures
            l.head is None,
            l.tail is None,
            l.total_qty == 0,
            l.count == 0,
    {
        PriceLevel::new()
    }
}

} // verus!
