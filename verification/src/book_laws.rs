//! Properties that hold of matching and of every sequence of submissions
//! to a valid book.

use crate::lemmas::{
    lemma_first_where, lemma_live_after_pop, lemma_pop_best_positive, lemma_pop_best_wf,
    lemma_push_front_positive, lemma_push_positive, lemma_total_qty_cut, lemma_total_qty_insert,
};
use crate::matching::crosses;
use crate::model::{not_better_than, worse_than};
use crate::matching::{fill_qty, match_against, trade_of, traded_qty};
use crate::model::{all_positive, live_in, total_qty, PriceLevelsView};
use crate::order_book::OrderBookView;
use crate::types::{OrderView, Side, TradeView};
use vstd::prelude::*;

verus! {

/// The quantity of a list of trades is the quantity of its two parts.
pub proof fn lemma_traded_qty_concat(a: Seq<TradeView>, b: Seq<TradeView>)
    ensures
        traded_qty(a + b) == traded_qty(a) + traded_qty(b),
    decreases b.len(),
{
    if b.len() == 0 {
        assert(a + b =~= a);
    } else {
        lemma_traded_qty_concat(a, b.drop_last());
        assert((a + b).drop_last() =~= a + b.drop_last());
    }
}

/// The quantity of a single trade.
proof fn lemma_traded_qty_one(trade: TradeView)
    ensures
        traded_qty(seq![trade]) == trade.qty,
{
    let one = seq![trade];
    assert(one.drop_last().len() == 0);
    assert(traded_qty(one.drop_last()) == 0);
    assert(one.last() == trade);
}

/// Matching leaves the opposite side valid, of its kind and with its
/// canceled ids, and every order that rests on it has quantity open.
pub proof fn law_matching_keeps_validity(opposite: PriceLevelsView, taker: OrderView)
    requires
        opposite.wf(),
        all_positive(opposite.queue),
    ensures
        match_against(opposite, taker).opposite.wf(),
        all_positive(match_against(opposite, taker).opposite.queue),
        match_against(opposite, taker).opposite.side == opposite.side,
        match_against(opposite, taker).opposite.canceled == opposite.canceled,
    decreases opposite.queue.len(),
{
    if taker.qty > 0 && opposite.queue.len() > 0 && crosses(
        taker.side,
        taker.px,
        opposite.queue[0].px,
    ) {
        lemma_first_where(opposite.queue, live_in(opposite.canceled));
        lemma_pop_best_wf(opposite);
        lemma_pop_best_positive(opposite);
        let popped = opposite.pop_best();
        match popped.order {
            None => {},
            Some(maker) => {
                let fill = fill_qty(taker.qty, maker.qty);
                if !crosses(taker.side, taker.px, maker.px) {
                    lemma_push_front_positive(popped.after, maker);
                } else if maker.qty > taker.qty {
                    lemma_push_front_positive(popped.after, maker.with_qty(maker.qty - fill));
                } else {
                    law_matching_keeps_validity(popped.after, taker.with_qty(taker.qty - fill));
                }
            },
        }
    }
}

/// What the trades fill and what stays open make up the quantity of the
/// incoming order.
pub proof fn law_fills_add_up(opposite: PriceLevelsView, taker: OrderView)
    ensures
        traded_qty(match_against(opposite, taker).trades) + match_against(
            opposite,
            taker,
        ).remaining == taker.qty,
    decreases opposite.queue.len(),
{
    if taker.qty > 0 && opposite.queue.len() > 0 && crosses(
        taker.side,
        taker.px,
        opposite.queue[0].px,
    ) {
        lemma_first_where(opposite.queue, live_in(opposite.canceled));
        let popped = opposite.pop_best();
        match popped.order {
            None => {},
            Some(maker) => {
                let fill = fill_qty(taker.qty, maker.qty);
                let trade = trade_of(maker, taker, fill);
                lemma_traded_qty_one(trade);
                if maker.qty <= taker.qty {
                    let next = match_against(popped.after, taker.with_qty(taker.qty - fill));
                    law_fills_add_up(popped.after, taker.with_qty(taker.qty - fill));
                    lemma_traded_qty_concat(seq![trade], next.trades);
                }
            },
        }
    }
}

/// Against a side of positive quantities, every trade fills a positive
/// quantity, and the quantity that stays open of an incoming order is
/// neither negative nor more than the order came with: the trades of
/// one submission never fill more than the incoming order asked for.
pub proof fn law_fills_are_bounded(opposite: PriceLevelsView, taker: OrderView)
    requires
        all_positive(opposite.queue),
        taker.qty >= 0,
    ensures
        0 <= match_against(opposite, taker).remaining <= taker.qty,
        0 <= traded_qty(match_against(opposite, taker).trades) <= taker.qty,
        forall|k: int|
            0 <= k < match_against(opposite, taker).trades.len() ==> (#[trigger] match_against(
                opposite,
                taker,
            ).trades[k]).qty > 0,
    decreases opposite.queue.len(),
{
    law_fills_add_up(opposite, taker);
    if taker.qty > 0 && opposite.queue.len() > 0 && crosses(
        taker.side,
        taker.px,
        opposite.queue[0].px,
    ) {
        lemma_first_where(opposite.queue, live_in(opposite.canceled));
        lemma_pop_best_positive(opposite);
        let popped = opposite.pop_best();
        match popped.order {
            None => {},
            Some(maker) => {
                let fill = fill_qty(taker.qty, maker.qty);
                if maker.qty <= taker.qty {
                    law_fills_are_bounded(popped.after, taker.with_qty(taker.qty - fill));
                    law_fills_add_up(popped.after, taker.with_qty(taker.qty - fill));
                }
            },
        }
    }
}

/// Price-time priority: the makers of the trades are the live orders of
/// the opposite side in the order of its queue, each trade is made at
/// its maker's resting price, and it fills the smaller of what the
/// incoming order and the maker have open when they meet.
pub proof fn law_trades_follow_priority(opposite: PriceLevelsView, taker: OrderView, k: int)
    requires
        0 <= k < match_against(opposite, taker).trades.len(),
    ensures
        k < opposite.live().len(),
        match_against(opposite, taker).trades[k] == trade_of(
            opposite.live()[k],
            taker,
            fill_qty(
                taker.qty - traded_qty(match_against(opposite, taker).trades.take(k)),
                opposite.live()[k].qty,
            ),
        ),
    decreases opposite.queue.len(),
{
    let m = match_against(opposite, taker);
    lemma_first_where(opposite.queue, live_in(opposite.canceled));
    lemma_live_after_pop(opposite);
    let popped = opposite.pop_best();
    let maker = popped.order.unwrap();
    let fill = fill_qty(taker.qty, maker.qty);
    let trade = trade_of(maker, taker, fill);
    if k == 0 {
        assert(m.trades.take(0) =~= Seq::<TradeView>::empty());
    } else {
        let rest = taker.with_qty(taker.qty - fill);
        let next = match_against(popped.after, rest);
        law_trades_follow_priority(popped.after, rest, k - 1);
        assert(m.trades.take(k) =~= seq![trade] + next.trades.take(k - 1));
        lemma_traded_qty_concat(seq![trade], next.trades.take(k - 1));
        lemma_traded_qty_one(trade);
        assert(opposite.live()[k] == popped.after.live()[k - 1]);
    }
}

/// Matching neither makes nor loses quantity: what rested on the
/// opposite side and what the incoming order came with is what rests
/// there afterwards, what stays open of the order, what was dropped as
/// canceled, and twice what was traded, since every trade fills its
/// maker and its taker alike.
pub proof fn law_matching_conserves_quantity(opposite: PriceLevelsView, taker: OrderView)
    ensures
        total_qty(opposite.queue) + taker.qty == total_qty(
            match_against(opposite, taker).opposite.queue,
        ) + match_against(opposite, taker).remaining + match_against(opposite, taker).purged + 2
            * traded_qty(match_against(opposite, taker).trades),
    decreases opposite.queue.len(),
{
    if taker.qty > 0 && opposite.queue.len() > 0 && crosses(
        taker.side,
        taker.px,
        opposite.queue[0].px,
    ) {
        lemma_first_where(opposite.queue, live_in(opposite.canceled));
        let popped = opposite.pop_best();
        let i = opposite.first_live();
        match popped.order {
            None => {
                assert(popped.after.queue =~= Seq::<OrderView>::empty());
            },
            Some(maker) => {
                let fill = fill_qty(taker.qty, maker.qty);
                let trade = trade_of(maker, taker, fill);
                lemma_traded_qty_one(trade);
                lemma_total_qty_cut(opposite.queue, i);
                if !crosses(taker.side, taker.px, maker.px) {
                    lemma_first_where(
                        popped.after.queue,
                        not_better_than(popped.after.side, maker.px),
                    );
                    lemma_total_qty_insert(
                        popped.after.queue,
                        popped.after.front_slot(maker.px),
                        maker,
                    );
                } else if maker.qty > taker.qty {
                    let put = maker.with_qty(maker.qty - fill);
                    lemma_first_where(
                        popped.after.queue,
                        not_better_than(popped.after.side, put.px),
                    );
                    lemma_total_qty_insert(
                        popped.after.queue,
                        popped.after.front_slot(put.px),
                        put,
                    );
                } else {
                    let next = match_against(popped.after, taker.with_qty(taker.qty - fill));
                    law_matching_conserves_quantity(popped.after, taker.with_qty(taker.qty - fill));
                    lemma_traded_qty_concat(seq![trade], next.trades);
                }
            },
        }
    }
}

/// What stays open of an incoming order is not negative.
proof fn lemma_remaining_not_negative(opposite: PriceLevelsView, taker: OrderView)
    requires
        taker.qty >= 0,
    ensures
        match_against(opposite, taker).remaining >= 0,
    decreases opposite.queue.len(),
{
    if taker.qty > 0 && opposite.queue.len() > 0 && crosses(
        taker.side,
        taker.px,
        opposite.queue[0].px,
    ) {
        lemma_first_where(opposite.queue, live_in(opposite.canceled));
        let popped = opposite.pop_best();
        match popped.order {
            None => {},
            Some(maker) => {
                let fill = fill_qty(taker.qty, maker.qty);
                if maker.qty <= taker.qty {
                    lemma_remaining_not_negative(popped.after, taker.with_qty(taker.qty - fill));
                }
            },
        }
    }
}

/// A submission leaves a valid book valid.
pub proof fn law_submission_keeps_validity(book: OrderBookView, taker: OrderView)
    requires
        book.wf(),
    ensures
        book.submit_limit(taker).book.wf(),
{
    match taker.side {
        Side::Bid => {
            law_matching_keeps_validity(book.asks, taker);
            let m = match_against(book.asks, taker);
            if m.remaining > 0 {
                lemma_push_positive(book.bids, taker.with_qty(m.remaining));
            }
        },
        Side::Ask => {
            law_matching_keeps_validity(book.bids, taker);
            let m = match_against(book.bids, taker);
            if m.remaining > 0 {
                lemma_push_positive(book.asks, taker.with_qty(m.remaining));
            }
        },
    }
}

/// The trades of one submission never fill more than the incoming
/// order came with, and each of them fills a positive quantity.
pub proof fn law_submission_fills_are_bounded(book: OrderBookView, taker: OrderView)
    requires
        book.wf(),
        taker.qty >= 0,
    ensures
        0 <= traded_qty(book.submit_limit(taker).trades) <= taker.qty,
        forall|k: int|
            0 <= k < book.submit_limit(taker).trades.len() ==> (#[trigger] book.submit_limit(
                taker,
            ).trades[k]).qty > 0,
{
    match taker.side {
        Side::Bid => law_fills_are_bounded(book.asks, taker),
        Side::Ask => law_fills_are_bounded(book.bids, taker),
    }
}

/// A submission neither makes nor loses quantity: what rested in the
/// book and what the incoming order came with is what rests afterwards,
/// what was dropped as canceled, and twice what was traded, since every
/// trade fills its maker and its taker alike.
pub proof fn law_submission_conserves_quantity(book: OrderBookView, taker: OrderView)
    requires
        taker.qty >= 0,
    ensures
        book.resting_qty() + taker.qty == book.submit_limit(taker).book.resting_qty()
            + book.submit_limit(taker).purged + 2 * traded_qty(book.submit_limit(taker).trades),
{
    match taker.side {
        Side::Bid => {
            law_matching_conserves_quantity(book.asks, taker);
            let m = match_against(book.asks, taker);
            if m.remaining > 0 {
                let rest = taker.with_qty(m.remaining);
                lemma_first_where(
                    book.bids.queue,
                    worse_than(book.bids.side, rest.px),
                );
                lemma_total_qty_insert(book.bids.queue, book.bids.back_slot(rest.px), rest);
            } else {
                lemma_remaining_not_negative(book.asks, taker);
            }
        },
        Side::Ask => {
            law_matching_conserves_quantity(book.bids, taker);
            let m = match_against(book.bids, taker);
            if m.remaining > 0 {
                let rest = taker.with_qty(m.remaining);
                lemma_first_where(
                    book.asks.queue,
                    worse_than(book.asks.side, rest.px),
                );
                lemma_total_qty_insert(book.asks.queue, book.asks.back_slot(rest.px), rest);
            } else {
                lemma_remaining_not_negative(book.bids, taker);
            }
        },
    }
}

/// Every trade is made at a price that the incoming order's limit
/// admits: a bid never pays more than its limit, and an ask never takes
/// less. This holds whatever canceled orders stand on the opposite
/// side.
pub proof fn law_trades_cross_limit(opposite: PriceLevelsView, taker: OrderView, k: int)
    requires
        0 <= k < match_against(opposite, taker).trades.len(),
    ensures
        crosses(taker.side, taker.px, match_against(opposite, taker).trades[k].px),
    decreases opposite.queue.len(),
{
    lemma_first_where(opposite.queue, live_in(opposite.canceled));
    let popped = opposite.pop_best();
    let maker = popped.order.unwrap();
    let fill = fill_qty(taker.qty, maker.qty);
    if k > 0 {
        law_trades_cross_limit(popped.after, taker.with_qty(taker.qty - fill), k - 1);
    }
}

/// What a sequence of submissions yields.
pub struct Replayed {
    /// The book after the last submission.
    pub book: OrderBookView,
    /// The total quantity of all the trades.
    pub traded: int,
    /// The total quantity of the canceled orders that were dropped.
    pub purged: int,
}

/// Submitting the orders of `orders` to `book`, the first of them
/// first.
pub open spec fn submit_all(book: OrderBookView, orders: Seq<OrderView>) -> Replayed
    decreases orders.len(),
{
    if orders.len() == 0 {
        Replayed { book, traded: 0, purged: 0 }
    } else {
        let before = submit_all(book, orders.drop_last());
        let last = before.book.submit_limit(orders.last());
        Replayed {
            book: last.book,
            traded: before.traded + traded_qty(last.trades),
            purged: before.purged + last.purged,
        }
    }
}

/// Every sequence of submissions leaves a valid book valid.
pub proof fn law_submissions_keep_validity(book: OrderBookView, orders: Seq<OrderView>)
    requires
        book.wf(),
    ensures
        submit_all(book, orders).book.wf(),
    decreases orders.len(),
{
    if orders.len() > 0 {
        law_submissions_keep_validity(book, orders.drop_last());
        law_submission_keeps_validity(submit_all(book, orders.drop_last()).book, orders.last());
    }
}

/// No sequence of submissions makes or loses quantity: what rested in
/// the book and what the orders came with is what rests afterwards,
/// what was dropped as canceled, and twice what was traded.
pub proof fn law_submissions_conserve_quantity(book: OrderBookView, orders: Seq<OrderView>)
    requires
        forall|i: int| 0 <= i < orders.len() ==> (#[trigger] orders[i]).qty >= 0,
    ensures
        book.resting_qty() + total_qty(orders) == submit_all(book, orders).book.resting_qty()
            + submit_all(book, orders).purged + 2 * submit_all(book, orders).traded,
    decreases orders.len(),
{
    if orders.len() > 0 {
        let head = orders.drop_last();
        assert forall|i: int| 0 <= i < head.len() implies (#[trigger] head[i]).qty >= 0 by {
            assert(head[i] == orders[i]);
        }
        law_submissions_conserve_quantity(book, head);
        assert(orders[orders.len() - 1].qty >= 0);
        law_submission_conserves_quantity(submit_all(book, head).book, orders.last());
    }
}

} // verus!
