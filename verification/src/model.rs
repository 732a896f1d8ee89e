//! The abstract state of one side of an order book.
//!
//! One side of a book is a *priority sequence*: every resting order, best
//! price first and, within one price, earliest arrival first. Beside it
//! stands the set of ids that were marked as canceled. Every operation of
//! the store is a function on this pair.

use crate::snapshot::{clamp_i64, clamp_usize, PriceLevel};
use crate::types::{OrderView, Side};
use vstd::prelude::*;

verus! {

/// Whether price `a` is strictly better than price `b` on `side`:
/// lower for asks, higher for bids.
pub open spec fn better(side: Side, a: int, b: int) -> bool {
    match side {
        Side::Ask => a < b,
        Side::Bid => a > b,
    }
}

/// Whether no order of `queue` stands behind an order of a strictly worse
/// price.
pub open spec fn sorted(side: Side, queue: Seq<OrderView>) -> bool {
    forall|i: int, j: int| 0 <= i < j < queue.len() ==> !better(side, queue[j].px, queue[i].px)
}

/// The orders priced at `px`.
pub open spec fn at_price(px: int) -> spec_fn(OrderView) -> bool {
    |o: OrderView| o.px == px
}

/// The orders priced otherwise than at `px`.
pub open spec fn off_price(px: int) -> spec_fn(OrderView) -> bool {
    |o: OrderView| o.px != px
}

/// The orders whose id is `id`.
pub open spec fn carrying(id: u128) -> spec_fn(OrderView) -> bool {
    |o: OrderView| o.id == id
}

/// The orders whose id is not `id`.
pub open spec fn other_than(id: u128) -> spec_fn(OrderView) -> bool {
    |o: OrderView| o.id != id
}

/// The orders whose id is not in `canceled`.
pub open spec fn live_in(canceled: Set<u128>) -> spec_fn(OrderView) -> bool {
    |o: OrderView| !canceled.contains(o.id)
}

/// The orders priced strictly worse than `px`.
pub open spec fn worse_than(side: Side, px: int) -> spec_fn(OrderView) -> bool {
    |o: OrderView| better(side, px, o.px)
}

/// The orders priced at `px` or worse.
pub open spec fn not_better_than(side: Side, px: int) -> spec_fn(OrderView) -> bool {
    |o: OrderView| !better(side, o.px, px)
}

/// The index of the first order of `queue` that satisfies `f`, or the
/// length of `queue` where none does.
pub open spec fn first_where(queue: Seq<OrderView>, f: spec_fn(OrderView) -> bool) -> int
    decreases queue.len(),
{
    if queue.len() == 0 {
        0
    } else if f(queue[0]) {
        0
    } else {
        1 + first_where(queue.drop_first(), f)
    }
}

/// The prices of `queue`, each price once for every run of orders that
/// share it. For a queue in price order these are the prices at which an
/// order rests, each once and best first.
pub open spec fn ladder_of(queue: Seq<OrderView>) -> Seq<int>
    decreases queue.len(),
{
    if queue.len() == 0 {
        Seq::empty()
    } else {
        let before = ladder_of(queue.drop_last());
        if before.len() > 0 && before.last() == queue.last().px {
            before
        } else {
            before.push(queue.last().px)
        }
    }
}

/// The levels that hold quantity.
pub open spec fn with_quantity() -> spec_fn(PriceLevel) -> bool {
    |level: PriceLevel| level.quantity > 0
}

/// The sum of the open quantities of `queue`.
pub open spec fn total_qty(queue: Seq<OrderView>) -> int
    decreases queue.len(),
{
    if queue.len() == 0 {
        0
    } else {
        total_qty(queue.drop_last()) + queue.last().qty
    }
}

/// Whether every order of `queue` has a positive open quantity.
pub open spec fn all_positive(queue: Seq<OrderView>) -> bool {
    forall|i: int| 0 <= i < queue.len() ==> (#[trigger] queue[i]).qty > 0
}

/// Whether every order of `queue` fits the executable order type.
pub open spec fn all_in_range(queue: Seq<OrderView>) -> bool {
    forall|i: int| 0 <= i < queue.len() ==> (#[trigger] queue[i]).in_range()
}

/// One side of a book.
pub struct PriceLevelsView {
    /// Which side this is; it decides which price is best.
    pub side: Side,
    /// The resting orders in the order in which they are served.
    pub queue: Seq<OrderView>,
    /// The ids marked as canceled. An id stays here for good, whether or
    /// not an order of that id rests or ever rested.
    pub canceled: Set<u128>,
}

/// What [`PriceLevelsView::pop_best`] yields.
pub struct Popped {
    /// The order served, if a live one was left.
    pub order: Option<OrderView>,
    /// The side after the call.
    pub after: PriceLevelsView,
}

/// What [`PriceLevelsView::cancel`] and
/// [`PriceLevelsView::eager_remove`] yield.
pub struct Marked {
    /// Whether the call changed anything.
    pub changed: bool,
    /// The side after the call.
    pub after: PriceLevelsView,
}

impl PriceLevelsView {
    /// The side with no resting order and no canceled id.
    pub open spec fn empty(side: Side) -> PriceLevelsView {
        PriceLevelsView { side, queue: Seq::empty(), canceled: Set::empty() }
    }

    /// The validity of a side: its queue is in price order.
    pub open spec fn wf(self) -> bool {
        sorted(self.side, self.queue)
    }

    /// Where an order arriving at `px` goes: behind every order of that
    /// price or a better one.
    pub open spec fn back_slot(self, px: int) -> int {
        first_where(self.queue, worse_than(self.side, px))
    }

    /// Where an order returning at `px` goes: before every order of that
    /// price or a worse one.
    pub open spec fn front_slot(self, px: int) -> int {
        first_where(self.queue, not_better_than(self.side, px))
    }

    /// The side after `order` arrived.
    pub open spec fn push(self, order: OrderView) -> PriceLevelsView {
        PriceLevelsView { queue: self.queue.insert(self.back_slot(order.px), order), ..self }
    }

    /// The side after `order` was put back at the head of its price.
    pub open spec fn push_front(self, order: OrderView) -> PriceLevelsView {
        PriceLevelsView { queue: self.queue.insert(self.front_slot(order.px), order), ..self }
    }

    /// The price of the order at the head of the queue, canceled or not.
    pub open spec fn best_price(self) -> Option<int> {
        if self.queue.len() == 0 {
            None
        } else {
            Some(self.queue[0].px)
        }
    }

    /// The resting orders priced at `px`, in the order in which they are
    /// served.
    pub open spec fn level(self, px: int) -> Seq<OrderView> {
        self.queue.filter(at_price(px))
    }

    /// The number of resting orders at the best price, canceled or not.
    pub open spec fn best_level_size(self) -> nat {
        match self.best_price() {
            Some(px) => self.level(px).len(),
            None => 0,
        }
    }

    /// Whether a resting order is priced at `px`.
    pub open spec fn has_price(self, px: int) -> bool {
        exists|i: int| 0 <= i < self.queue.len() && (#[trigger] self.queue[i]).px == px
    }

    /// The number of resting orders that carry `id`.
    pub open spec fn copies(self, id: u128) -> nat {
        self.queue.filter(carrying(id)).len()
    }

    /// Whether a resting order carries `id`.
    pub open spec fn holds(self, id: u128) -> bool {
        exists|i: int| 0 <= i < self.queue.len() && (#[trigger] self.queue[i]).id == id
    }

    /// The index of the first resting order that is not canceled, or the
    /// length of the queue where all are.
    pub open spec fn first_live(self) -> int {
        first_where(self.queue, live_in(self.canceled))
    }

    /// The resting orders that are not canceled.
    pub open spec fn live(self) -> Seq<OrderView> {
        self.queue.filter(live_in(self.canceled))
    }

    /// The side without the first `n` orders of its queue.
    pub open spec fn without_head(self, n: int) -> PriceLevelsView {
        PriceLevelsView { queue: self.queue.skip(n), ..self }
    }

    /// Serving the best order: the canceled orders at the head of the
    /// queue are dropped, and the first live order, if there is one,
    /// leaves the queue and is returned.
    pub open spec fn pop_best(self) -> Popped {
        let i = self.first_live();
        if i < self.queue.len() {
            Popped { order: Some(self.queue[i]), after: self.without_head(i + 1) }
        } else {
            Popped { order: None, after: self.without_head(self.queue.len() as int) }
        }
    }

    /// Marking `id` as canceled. The queue is left as it is. The call
    /// counts as a cancellation where an order rests under `id` and `id`
    /// was not marked before.
    pub open spec fn cancel(self, id: u128) -> Marked {
        Marked {
            changed: self.holds(id) && !self.canceled.contains(id),
            after: PriceLevelsView { canceled: self.canceled.insert(id), ..self },
        }
    }

    /// Removing every resting order that carries `id`. The canceled ids
    /// are left as they are.
    pub open spec fn eager_remove(self, id: u128) -> Marked {
        Marked {
            changed: self.holds(id),
            after: PriceLevelsView { queue: self.queue.filter(other_than(id)), ..self },
        }
    }

    /// The resting orders priced at `px` that are not canceled.
    pub open spec fn live_level(self, px: int) -> Seq<OrderView> {
        self.level(px).filter(live_in(self.canceled))
    }

    /// The prices at which an order rests, each once and best first.
    pub open spec fn ladder(self) -> Seq<int> {
        ladder_of(self.queue)
    }

    /// The live orders at `px`, added up: their total open quantity,
    /// held to 64 bits, and their number.
    pub open spec fn level_summary(self, px: int) -> PriceLevel {
        PriceLevel {
            price: px as i64,
            quantity: clamp_i64(total_qty(self.live_level(px))) as i64,
            orders: clamp_usize(self.live_level(px).len() as int) as usize,
        }
    }

    /// The `max` best prices, or all of them where there are fewer, best
    /// first and each with the live orders at that price added up.
    pub open spec fn best_levels(self, max: int) -> Seq<PriceLevel> {
        let ladder = self.ladder();
        let n = if max <= ladder.len() {
            max
        } else {
            ladder.len() as int
        };
        ladder.take(n).map_values(|px: int| self.level_summary(px))
    }

    /// The depth of the side: those of the `max` best prices at which
    /// the live orders hold quantity.
    pub open spec fn depth(self, max: int) -> Seq<PriceLevel> {
        self.best_levels(max).filter(with_quantity())
    }

    /// The sum of the open quantities of the resting orders.
    pub open spec fn resting_qty(self) -> int {
        total_qty(self.queue)
    }
}

} // verus!
