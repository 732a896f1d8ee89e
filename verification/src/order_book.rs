//! The two-sided book of one symbol and the matching of incoming limit
//! orders against it.

use crate::lemmas::{
    lemma_first_where, lemma_front_slot, lemma_pop_best_positive, lemma_pop_best_wf,
    lemma_push_front_positive, lemma_push_positive,
};
use crate::book_laws::{
    law_fills_are_bounded, law_submission_conserves_quantity, law_trades_cross_limit,
    law_trades_follow_priority,
};
use crate::matching::{crosses, fill_qty, match_against, trade_of, traded_qty};
use crate::model::{all_positive, better, live_in, PriceLevelsView};
use crate::price_levels::PriceLevels;
use crate::types::{trade_views, Order, OrderView, Side, Trade, TradeView};
use vstd::prelude::*;

verus! {

/// Central limit order book with separate bid and ask sides.
///
/// Matching follows price-time priority: better prices first and, within
/// a price, earlier arrival first. A book is not synchronized: callers
/// that share one guard it themselves.
pub struct OrderBook {
    /// Buy orders, highest price first.
    pub bids: PriceLevels,
    /// Sell orders, lowest price first.
    pub asks: PriceLevels,
}

/// The two sides of a book.
pub struct OrderBookView {
    pub bids: PriceLevelsView,
    pub asks: PriceLevelsView,
}

/// What [`OrderBookView::submit_limit`] yields.
pub struct Submitted {
    /// The book after the call.
    pub book: OrderBookView,
    /// The trades, earliest first.
    pub trades: Seq<TradeView>,
    /// The total quantity of the canceled orders that were dropped on
    /// the way.
    pub purged: int,
}

/// What [`OrderBookView::cancel`] yields.
pub struct BookMarked {
    /// Whether the call canceled an order on either side.
    pub changed: bool,
    /// The book after the call.
    pub after: OrderBookView,
}

impl OrderBookView {
    /// The validity of a book: each side is a valid side of its kind, and
    /// every resting order has quantity open.
    pub open spec fn wf(self) -> bool {
        &&& self.bids.wf()
        &&& self.asks.wf()
        &&& self.bids.side == Side::Bid
        &&& self.asks.side == Side::Ask
        &&& all_positive(self.bids.queue)
        &&& all_positive(self.asks.queue)
    }

    /// The book with no resting order and no canceled id.
    pub open spec fn empty() -> OrderBookView {
        OrderBookView {
            bids: PriceLevelsView::empty(Side::Bid),
            asks: PriceLevelsView::empty(Side::Ask),
        }
    }

    /// The side that an incoming order of `side` is matched against: the
    /// asks for a bid, the bids for an ask.
    pub open spec fn opposite(self, side: Side) -> PriceLevelsView {
        match side {
            Side::Bid => self.asks,
            Side::Ask => self.bids,
        }
    }

    /// The sum of the open quantities of the resting orders of both
    /// sides.
    pub open spec fn resting_qty(self) -> int {
        self.bids.resting_qty() + self.asks.resting_qty()
    }

    /// Marking `id` as canceled on both sides, since an id does not say
    /// on which side its order rests.
    pub open spec fn cancel(self, id: u128) -> BookMarked {
        BookMarked {
            changed: self.bids.cancel(id).changed || self.asks.cancel(id).changed,
            after: OrderBookView {
                bids: self.bids.cancel(id).after,
                asks: self.asks.cancel(id).after,
            },
        }
    }

    /// Submitting the limit order `taker`: it is matched against the
    /// opposite side, and what stays open of it rests on its own side,
    /// behind the orders of its price.
    pub open spec fn submit_limit(self, taker: OrderView) -> Submitted {
        match taker.side {
            Side::Bid => {
                let m = match_against(self.asks, taker);
                Submitted {
                    book: OrderBookView {
                        bids: if m.remaining > 0 {
                            self.bids.push(taker.with_qty(m.remaining))
                        } else {
                            self.bids
                        },
                        asks: m.opposite,
                    },
                    trades: m.trades,
                    purged: m.purged,
                }
            },
            Side::Ask => {
                let m = match_against(self.bids, taker);
                Submitted {
                    book: OrderBookView {
                        bids: m.opposite,
                        asks: if m.remaining > 0 {
                            self.asks.push(taker.with_qty(m.remaining))
                        } else {
                            self.asks
                        },
                    },
                    trades: m.trades,
                    purged: m.purged,
                }
            },
        }
    }
}

impl View for OrderBook {
    type V = OrderBookView;

    open spec fn view(&self) -> OrderBookView {
        OrderBookView { bids: self.bids@, asks: self.asks@ }
    }
}

/// Matches `taker` against the resting orders of `opposite`, and returns
/// it with the quantity that is still open, and the trades.
fn take_from(opposite: &mut PriceLevels, taker: Order) -> (r: (Order, Vec<Trade>))
    requires
        old(opposite).wf(),
        all_positive(old(opposite)@.queue),
    ensures
        final(opposite).wf(),
        all_positive(final(opposite)@.queue),
        final(opposite)@.side == old(opposite)@.side,
        final(opposite)@ == match_against(old(opposite)@, taker@).opposite,
        trade_views(r.1@) == match_against(old(opposite)@, taker@).trades,
        r.0@ == taker@.with_qty(match_against(old(opposite)@, taker@).remaining),
{
    let ghost goal = match_against(opposite@, taker@);
    let ghost incoming = taker@;
    let mut taker = taker;
    let mut trades: Vec<Trade> = Vec::new();
    proof {
        assert(trade_views(trades@) + goal.trades =~= goal.trades);
        assert(incoming.with_qty(incoming.qty) == incoming);
    }
    while taker.qty > 0
        invariant
            opposite.wf(),
            all_positive(opposite@.queue),
            opposite@.side == old(opposite)@.side,
            taker@ == incoming.with_qty(taker.qty as int),
            goal.trades == trade_views(trades@) + match_against(opposite@, taker@).trades,
            goal.opposite == match_against(opposite@, taker@).opposite,
            goal.remaining == match_against(opposite@, taker@).remaining,
        ensures
            match_against(opposite@, taker@).trades.len() == 0,
            match_against(opposite@, taker@).opposite == opposite@,
            match_against(opposite@, taker@).remaining == taker.qty,
        decreases
            opposite@.queue.len() + (if taker.qty > 0 {
                1int
            } else {
                0int
            }),
    {
        let ghost before = opposite@;
        let ghost asking = taker@;
        let best: i64 = match opposite.best_price() {
            Some(px) => px,
            None => {
                break ;
            },
        };
        let no_cross = match taker.side {
            Side::Bid => taker.px_ticks < best,
            Side::Ask => taker.px_ticks > best,
        };
        if no_cross {
            break ;
        }
        proof {
            opposite.lemma_valid_view();
            lemma_first_where(before.queue, live_in(before.canceled));
        }
        let mut maker = match opposite.pop_best() {
            Some(order) => order,
            None => {
                break ;
            },
        };
        let ghost resting = maker@;
        let ghost popped = opposite@;
        proof {
            lemma_pop_best_positive(before);
            opposite.lemma_valid_view();
        }
        let maker_crosses = match taker.side {
            Side::Bid => taker.px_ticks >= maker.px_ticks,
            Side::Ask => taker.px_ticks <= maker.px_ticks,
        };
        if !maker_crosses {
            opposite.push_front(maker);
            proof {
                lemma_push_front_positive(popped, resting);
                lemma_put_back_heads(before);
            }
            break ;
        }
        let fill: i64 = if taker.qty < maker.qty {
            taker.qty
        } else {
            maker.qty
        };
        taker.qty = taker.qty - fill;
        maker.qty = maker.qty - fill;
        let ghost listed = trades@;
        trades.push(
            Trade {
                maker: maker.id,
                taker: taker.id,
                symbol: taker.symbol.clone(),
                px_ticks: maker.px_ticks,
                qty: fill,
                ts_ns: taker.ts_ns,
            },
        );
        proof {
            assert(fill == fill_qty(asking.qty, resting.qty));
            assert(trades@.last()@ == trade_of(resting, asking, fill as int));
            assert(trade_views(trades@) =~= trade_views(listed).push(
                trade_of(resting, asking, fill as int),
            ));
            assert(taker@ == asking.with_qty(asking.qty - fill));
            assert(maker@ == resting.with_qty(resting.qty - fill));
        }
        if maker.qty > 0 {
            opposite.push_front(maker);
            proof {
                lemma_push_front_positive(popped, resting.with_qty(resting.qty - fill));
                assert(match_against(before, asking).trades =~= seq![
                    trade_of(resting, asking, fill as int),
                ] + match_against(opposite@, taker@).trades);
            }
        }
        proof {
            let one = seq![trade_of(resting, asking, fill as int)];
            let rest = match_against(opposite@, taker@);
            assert(match_against(before, asking).trades =~= one + rest.trades);
            assert(trade_views(listed) + (one + rest.trades) =~= trade_views(trades@)
                + rest.trades);
        }
    }
    proof {
        assert(trade_views(trades@) + Seq::<TradeView>::empty() =~= trade_views(trades@));
        assert(match_against(opposite@, taker@).trades =~= Seq::<TradeView>::empty());
    }
    (taker, trades)
}

/// The order that `pop_best` served, put back, stands at the head of the
/// queue.
proof fn lemma_put_back_heads(v: PriceLevelsView)
    requires
        v.wf(),
        v.pop_best().order.is_some(),
    ensures
        v.pop_best().after.push_front(v.pop_best().order.unwrap()).queue.len() > 0,
        v.pop_best().after.push_front(v.pop_best().order.unwrap()).queue[0]
            == v.pop_best().order.unwrap(),
{
    lemma_first_where(v.queue, live_in(v.canceled));
    lemma_pop_best_wf(v);
    let i = v.first_live();
    let maker = v.queue[i];
    let after = v.pop_best().after;
    lemma_front_slot(after, maker.px);
    if after.front_slot(maker.px) > 0 {
        assert(after.queue[0] == v.queue[i + 1]);
        assert(!better(v.side, v.queue[i + 1].px, v.queue[i].px));
    }
}

impl OrderBook {
    /// The validity of a book: both stores are valid, and so is the book
    /// that they make up.
    pub open spec fn wf(&self) -> bool {
        &&& self.bids.wf()
        &&& self.asks.wf()
        &&& self@.wf()
    }

    /// Creates an empty order book.
    pub fn new() -> (book: Self)
        ensures
            book.wf(),
            book@ == OrderBookView::empty(),
    {
        let book = OrderBook {
            bids: PriceLevels::new(Side::Bid),
            asks: PriceLevels::new(Side::Ask),
        };
        proof {
            book.bids.lemma_valid_view();
            book.asks.lemma_valid_view();
        }
        book
    }

    /// Submits a limit order and returns the trades it gave rise to,
    /// earliest first.
    ///
    /// The order is matched against the opposite side as long as it has
    /// quantity open and its limit crosses the best opposite price; each
    /// trade executes at the resting order's price, which the limit
    /// always admits. What stays open rests on the order's own side. An
    /// order without quantity changes nothing.
    ///
    /// The makers are the live orders of the opposite side in the order
    /// of their priority. Each trade fills the smaller of what the
    /// incoming order and its maker have open when they meet, and all the
    /// trades together fill no more than the order came with. No quantity
    /// is made or lost: what rested and what the order came with is what
    /// rests afterwards, what was dropped as canceled, and twice what was
    /// traded, since every trade fills its maker and its taker alike.
    pub fn submit_limit(&mut self, taker: Order) -> (trades: Vec<Trade>)
        requires
            old(self).wf(),
        ensures
            final(self).wf(),
            final(self)@ == old(self)@.submit_limit(taker@).book,
            trade_views(trades@) == old(self)@.submit_limit(taker@).trades,
            taker.qty >= 0 ==> 0 <= traded_qty(trade_views(trades@)) <= taker.qty,
            taker.qty >= 0 ==> old(self)@.resting_qty() + taker.qty == final(self)@.resting_qty()
                + old(self)@.submit_limit(taker@).purged + 2 * traded_qty(trade_views(trades@)),
            forall|k: int|
                0 <= k < trades@.len() ==> crosses(
                    taker.side,
                    taker.px_ticks as int,
                    (#[trigger] trades@[k]).px_ticks as int,
                ),
            forall|k: int|
                0 <= k < trades@.len() ==> {
                    let makers = old(self)@.opposite(taker.side).live();
                    &&& k < makers.len()
                    &&& (#[trigger] trades@[k])@ == trade_of(
                        makers[k],
                        taker@,
                        fill_qty(
                            taker.qty - traded_qty(trade_views(trades@).take(k)),
                            makers[k].qty,
                        ),
                    )
                },
    {
        let ghost incoming = taker@;
        let ghost opposite = self@.opposite(taker.side);
        proof {
            if incoming.qty >= 0 {
                law_fills_are_bounded(opposite, incoming);
                law_submission_conserves_quantity(self@, incoming);
            }
            let found = match_against(opposite, incoming).trades;
            assert forall|k: int| 0 <= k < found.len() implies k < opposite.live().len()
                && #[trigger] found[k] == trade_of(
                opposite.live()[k],
                incoming,
                fill_qty(incoming.qty - traded_qty(found.take(k)), opposite.live()[k].qty),
            ) && crosses(incoming.side, incoming.px, found[k].px) by {
                law_trades_follow_priority(opposite, incoming, k);
                law_trades_cross_limit(opposite, incoming, k);
            }
        }
        match taker.side {
            Side::Bid => {
                let (rest, trades) = take_from(&mut self.asks, taker);
                if rest.qty > 0 {
                    let ghost own = self.bids@;
                    self.bids.push(rest);
                    proof {
                        lemma_push_positive(own, rest@);
                    }
                }
                proof {
                    self.asks.lemma_valid_view();
                    assert forall|k: int| 0 <= k < trades@.len() implies (#[trigger] trades@[k])@
                        == trade_views(trades@)[k] by {}
                }
                trades
            },
            Side::Ask => {
                let (rest, trades) = take_from(&mut self.bids, taker);
                if rest.qty > 0 {
                    let ghost own = self.asks@;
                    self.asks.push(rest);
                    proof {
                        lemma_push_positive(own, rest@);
                    }
                }
                proof {
                    self.bids.lemma_valid_view();
                    assert forall|k: int| 0 <= k < trades@.len() implies (#[trigger] trades@[k])@
                        == trade_views(trades@)[k] by {}
                }
                trades
            },
        }
    }

    /// Returns the best bid price: the highest price at which a buy order
    /// rests.
    pub fn best_bid(&self) -> (r: Option<i64>)
        requires
            self.wf(),
        ensures
            match r {
                Some(px) => self@.bids.best_price() == Some(px as int),
                None => self@.bids.best_price().is_none(),
            },
    {
        self.bids.best_price()
    }

    /// Returns the best ask price: the lowest price at which a sell order
    /// rests.
    pub fn best_ask(&self) -> (r: Option<i64>)
        requires
            self.wf(),
        ensures
            match r {
                Some(px) => self@.asks.best_price() == Some(px as int),
                None => self@.asks.best_price().is_none(),
            },
    {
        self.asks.best_price()
    }
}

} // verus!
