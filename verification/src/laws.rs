//! Properties that hold of every valid side and of every sequence of
//! operations on it.

use crate::lemmas::{
    lemma_eager_remove_wf, lemma_filter_all, lemma_first_where, lemma_first_where_unique,
    lemma_front_slot, lemma_live_after_pop, lemma_pop_best_wf, lemma_push, lemma_push_front,
    lemma_total_qty_cut,
};
use crate::model::{
    at_price, better, carrying, live_in, other_than, total_qty, worse_than, PriceLevelsView,
};
use crate::types::{OrderView, Side};
use vstd::prelude::*;

verus! {

/// One operation on a side.
pub enum StoreOp {
    /// An order arrives.
    Push(OrderView),
    /// An order returns to the head of its price.
    PushFront(OrderView),
    /// The best live order is served.
    PopBest,
    /// An id is marked as canceled.
    Cancel(u128),
    /// The orders of an id are removed at once.
    EagerRemove(u128),
}

/// The side after `op`.
pub open spec fn apply(v: PriceLevelsView, op: StoreOp) -> PriceLevelsView {
    match op {
        StoreOp::Push(order) => v.push(order),
        StoreOp::PushFront(order) => v.push_front(order),
        StoreOp::PopBest => v.pop_best().after,
        StoreOp::Cancel(id) => v.cancel(id).after,
        StoreOp::EagerRemove(id) => v.eager_remove(id).after,
    }
}

/// The side after `ops`, the first of them first.
pub open spec fn apply_all(v: PriceLevelsView, ops: Seq<StoreOp>) -> PriceLevelsView
    decreases ops.len(),
{
    if ops.len() == 0 {
        v
    } else {
        apply(apply_all(v, ops.drop_last()), ops.last())
    }
}

/// The side after the orders of `orders` arrived, the first of them
/// first.
pub open spec fn push_all(v: PriceLevelsView, orders: Seq<OrderView>) -> PriceLevelsView
    decreases orders.len(),
{
    if orders.len() == 0 {
        v
    } else {
        push_all(v, orders.drop_last()).push(orders.last())
    }
}

/// The orders that up to `n` calls of `pop_best` in a row return, the
/// first of them first. The calls end with the first that returns
/// nothing.
pub open spec fn served(v: PriceLevelsView, n: nat) -> Seq<OrderView>
    decreases n,
{
    if n == 0 {
        Seq::empty()
    } else {
        match v.pop_best().order {
            Some(order) => seq![order] + served(v.pop_best().after, (n - 1) as nat),
            None => Seq::empty(),
        }
    }
}

/// Every operation leaves a valid side valid, keeps its kind, and keeps
/// each id that was marked as canceled.
pub proof fn law_op_keeps_validity(v: PriceLevelsView, op: StoreOp)
    requires
        v.wf(),
    ensures
        apply(v, op).wf(),
        apply(v, op).side == v.side,
        v.canceled.subset_of(apply(v, op).canceled),
{
    match op {
        StoreOp::Push(order) => lemma_push(v, order),
        StoreOp::PushFront(order) => lemma_push_front(v, order),
        StoreOp::PopBest => lemma_pop_best_wf(v),
        StoreOp::Cancel(id) => {},
        StoreOp::EagerRemove(id) => lemma_eager_remove_wf(v, id),
    }
}

/// Every sequence of operations leaves a valid side valid, keeps its
/// kind, and keeps each id that was marked as canceled.
pub proof fn law_ops_keep_validity(v: PriceLevelsView, ops: Seq<StoreOp>)
    requires
        v.wf(),
    ensures
        apply_all(v, ops).wf(),
        apply_all(v, ops).side == v.side,
        v.canceled.subset_of(apply_all(v, ops).canceled),
    decreases ops.len(),
{
    if ops.len() > 0 {
        law_ops_keep_validity(v, ops.drop_last());
        law_op_keeps_validity(apply_all(v, ops.drop_last()), ops.last());
    }
}

/// The best price is at least as good as the price of every resting
/// order: no ask rests below the best ask, and no bid above the best
/// bid.
pub proof fn law_best_price_is_best(v: PriceLevelsView, i: int)
    requires
        v.wf(),
        0 <= i < v.queue.len(),
    ensures
        v.best_price().is_some(),
        !better(v.side, v.queue[i].px, v.best_price().unwrap()),
{
    if i > 0 {
        assert(!better(v.side, v.queue[i].px, v.queue[0].px));
    }
}

/// Orders leave a side in the order of its queue: `n` calls of
/// `pop_best` in a row return the first `n` live orders, or all of them
/// where there are fewer.
pub proof fn law_served_in_queue_order(v: PriceLevelsView, n: nat)
    ensures
        served(v, n) == v.live().take(
            if n <= v.live().len() {
                n as int
            } else {
                v.live().len() as int
            },
        ),
    decreases n,
{
    lemma_live_after_pop(v);
    if n > 0 {
        match v.pop_best().order {
            Some(order) => {
                let after = v.pop_best().after;
                law_served_in_queue_order(after, (n - 1) as nat);
                let m = if n - 1 <= after.live().len() {
                    n - 1
                } else {
                    after.live().len() as int
                };
                assert(served(v, n) =~= v.live().take(m + 1));
            },
            None => {
                assert(served(v, n) =~= v.live().take(0));
            },
        }
    } else {
        assert(served(v, n) =~= v.live().take(0));
    }
}

/// Orders that arrive at one price join the queue of that price in the
/// order of their arrival, behind the orders that rested there.
pub proof fn law_arrivals_keep_their_order(v: PriceLevelsView, orders: Seq<OrderView>, px: int)
    requires
        v.wf(),
        forall|i: int| 0 <= i < orders.len() ==> (#[trigger] orders[i]).px == px,
    ensures
        push_all(v, orders).wf(),
        push_all(v, orders).canceled == v.canceled,
        push_all(v, orders).level(px) == v.level(px) + orders,
    decreases orders.len(),
{
    if orders.len() == 0 {
        assert(v.level(px) + orders =~= v.level(px));
    } else {
        let before = push_all(v, orders.drop_last());
        law_arrivals_keep_their_order(v, orders.drop_last(), px);
        lemma_push(before, orders.last());
        assert((v.level(px) + orders.drop_last()).push(orders.last()) =~= v.level(px) + orders);
    }
}

/// First in, first out: orders that arrive at one price in an empty
/// side, none of them under a canceled id, are served in the order of
/// their arrival.
pub proof fn law_fifo_at_one_price(v: PriceLevelsView, orders: Seq<OrderView>, px: int)
    requires
        v.wf(),
        v.queue.len() == 0,
        forall|i: int| 0 <= i < orders.len() ==> (#[trigger] orders[i]).px == px,
        forall|i: int| 0 <= i < orders.len() ==> !v.canceled.contains((#[trigger] orders[i]).id),
    ensures
        served(push_all(v, orders), orders.len()) == orders,
{
    let full = push_all(v, orders);
    let at = at_price(px);
    let live = live_in(v.canceled);
    assert(full.queue == orders) by {
        law_arrivals_keep_their_order(v, orders, px);
        lemma_queue_is_one_level(v, orders, px);
        assert(v.queue.filter(at) =~= Seq::<OrderView>::empty()) by {
            reveal(Seq::filter);
        }
        assert(Seq::<OrderView>::empty() + orders =~= orders);
        assert forall|i: int| 0 <= i < full.queue.len() implies at(#[trigger] full.queue[i]) by {}
        lemma_filter_all(full.queue, at);
    }
    assert(full.canceled == v.canceled) by {
        law_arrivals_keep_their_order(v, orders, px);
    }
    assert(full.live() == orders) by {
        assert forall|i: int| 0 <= i < orders.len() implies live(#[trigger] orders[i]) by {}
        lemma_filter_all(orders, live);
    }
    law_served_in_queue_order(full, orders.len());
    assert(orders.take(orders.len() as int) =~= orders);
}

/// Orders that arrive at one price in an empty side leave a queue that
/// holds that price only.
proof fn lemma_queue_is_one_level(v: PriceLevelsView, orders: Seq<OrderView>, px: int)
    requires
        v.queue.len() == 0,
        forall|i: int| 0 <= i < orders.len() ==> (#[trigger] orders[i]).px == px,
    ensures
        forall|i: int|
            0 <= i < push_all(v, orders).queue.len() ==> (#[trigger] push_all(
                v,
                orders,
            ).queue[i]).px == px,
    decreases orders.len(),
{
    if orders.len() > 0 {
        let before = push_all(v, orders.drop_last());
        lemma_queue_is_one_level(v, orders.drop_last(), px);
        let last = orders.last();
        lemma_first_where(before.queue, worse_than(before.side, last.px));
        let at = before.back_slot(last.px);
        let after = before.push(last).queue;
        assert forall|i: int| 0 <= i < after.len() implies (#[trigger] after[i]).px == px by {
            if i < at {
                assert(after[i] == before.queue[i]);
            } else if i > at {
                assert(after[i] == before.queue[i - 1]);
            }
        }
    }
}

/// An order that is put back at the head of its price stands before
/// every order of that price. Where no resting order has a better price
/// and its id is not canceled, the next call of `pop_best` returns it
/// and leaves the queue as it was before the order was put back.
pub proof fn law_put_back_is_served_first(v: PriceLevelsView, order: OrderView)
    requires
        v.wf(),
    ensures
        v.push_front(order).level(order.px) == seq![order] + v.level(order.px),
        !v.canceled.contains(order.id) && (v.queue.len() > 0 ==> !better(
            v.side,
            v.queue[0].px,
            order.px,
        )) ==> {
            &&& v.push_front(order).pop_best().order == Some(order)
            &&& v.push_front(order).pop_best().after.queue == v.queue
        },
{
    lemma_push_front(v, order);
    if !v.canceled.contains(order.id) && (v.queue.len() > 0 ==> !better(
        v.side,
        v.queue[0].px,
        order.px,
    )) {
        lemma_front_slot(v, order.px);
        let at = v.front_slot(order.px);
        if at > 0 {
            assert(better(v.side, v.queue[0].px, order.px));
        }
        let after = v.push_front(order);
        lemma_first_where_unique(after.queue, live_in(after.canceled), 0);
        assert(after.queue.skip(1) =~= v.queue);
    }
}

/// Serving the best order loses no quantity: what rested is what rests
/// afterwards, what the order served has open, and what the canceled
/// orders before it had open.
pub proof fn law_serving_conserves_quantity(v: PriceLevelsView)
    ensures
        v.resting_qty() == v.pop_best().after.resting_qty() + total_qty(
            v.queue.take(v.first_live()),
        ) + match v.pop_best().order {
            Some(order) => order.qty,
            None => 0,
        },
{
    lemma_first_where(v.queue, live_in(v.canceled));
    let i = v.first_live();
    if i < v.queue.len() {
        lemma_total_qty_cut(v.queue, i);
    } else {
        assert(v.queue.take(i) =~= v.queue);
        assert(v.queue.skip(i).len() == 0);
    }
}

/// Removing the orders of an id loses no quantity: what rested is what
/// rests afterwards and what the orders of that id had open.
pub proof fn law_removal_conserves_quantity(v: PriceLevelsView, id: u128)
    ensures
        v.resting_qty() == v.eager_remove(id).after.resting_qty() + total_qty(
            v.queue.filter(carrying(id)),
        ),
{
    lemma_total_qty_by_id(v.queue, id);
}

/// The quantity of a queue is that of the orders of one id and that of
/// the others.
proof fn lemma_total_qty_by_id(queue: Seq<OrderView>, id: u128)
    ensures
        total_qty(queue) == total_qty(queue.filter(other_than(id))) + total_qty(
            queue.filter(carrying(id)),
        ),
    decreases queue.len(),
{
    reveal(Seq::filter);
    if queue.len() > 0 {
        let rest = queue.drop_last();
        lemma_total_qty_by_id(rest, id);
        let kept = rest.filter(other_than(id));
        let gone = rest.filter(carrying(id));
        assert(kept.push(queue.last()).drop_last() =~= kept);
        assert(gone.push(queue.last()).drop_last() =~= gone);
    }
}

/// A cancellation counts once: after `id` was marked, no later call for
/// `id` counts as a cancellation, whatever operations came between.
pub proof fn law_cancel_counts_once(v: PriceLevelsView, id: u128, ops: Seq<StoreOp>)
    requires
        v.wf(),
    ensures
        !apply_all(v.cancel(id).after, ops).cancel(id).changed,
{
    law_op_keeps_validity(v, StoreOp::Cancel(id));
    law_ops_keep_validity(v.cancel(id).after, ops);
    assert(v.cancel(id).after.canceled.contains(id));
}

/// The first cancellation of an id under which an order rests counts,
/// and it leaves the queue as it is.
pub proof fn law_first_cancel_counts(v: PriceLevelsView, id: u128)
    requires
        v.holds(id),
        !v.canceled.contains(id),
    ensures
        v.cancel(id).changed,
        v.cancel(id).after.queue == v.queue,
{
}

/// Whether one of `ops` marks `id` as canceled.
pub open spec fn cancels(ops: Seq<StoreOp>, id: u128) -> bool {
    exists|i: int| 0 <= i < ops.len() && #[trigger] ops[i] == StoreOp::Cancel(id)
}

/// The ids that are marked as canceled on a side that began empty are
/// the ids that a cancellation named.
pub proof fn law_marked_ids_were_canceled(side: Side, ops: Seq<StoreOp>, id: u128)
    ensures
        apply_all(PriceLevelsView::empty(side), ops).canceled.contains(id) <==> cancels(ops, id),
    decreases ops.len(),
{
    if ops.len() > 0 {
        let head = ops.drop_last();
        law_marked_ids_were_canceled(side, head, id);
        if cancels(head, id) {
            let i = choose|i: int| 0 <= i < head.len() && #[trigger] head[i] == StoreOp::Cancel(id);
            assert(ops[i] == StoreOp::Cancel(id));
        }
        if cancels(ops, id) {
            let i = choose|i: int| 0 <= i < ops.len() && #[trigger] ops[i] == StoreOp::Cancel(id);
            if i < head.len() {
                assert(head[i] == StoreOp::Cancel(id));
            }
        }
        if ops.last() == StoreOp::Cancel(id) {
            assert(ops[ops.len() - 1] == StoreOp::Cancel(id));
        }
    }
}

/// A cancellation counts exactly once: on a side that began empty, the
/// cancellation of an id under which an order rests counts where no
/// cancellation named the id before, and only there.
pub proof fn law_cancel_counts_exactly_once(side: Side, ops: Seq<StoreOp>, id: u128)
    requires
        apply_all(PriceLevelsView::empty(side), ops).holds(id),
    ensures
        apply_all(PriceLevelsView::empty(side), ops).cancel(id).changed == !cancels(ops, id),
{
    law_marked_ids_were_canceled(side, ops, id);
}

/// An order that was canceled is never served: `pop_best` returns no
/// order whose id is marked, whatever operations came after the
/// cancellation.
pub proof fn law_canceled_is_never_served(v: PriceLevelsView, id: u128, ops: Seq<StoreOp>)
    requires
        v.wf(),
    ensures
        apply_all(v.cancel(id).after, ops).pop_best().order matches Some(order) ==> order.id != id,
{
    law_op_keeps_validity(v, StoreOp::Cancel(id));
    law_ops_keep_validity(v.cancel(id).after, ops);
    assert(v.cancel(id).after.canceled.contains(id));
    let then = apply_all(v.cancel(id).after, ops);
    lemma_first_where(then.queue, live_in(then.canceled));
}

} // verus!
