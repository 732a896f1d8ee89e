//! What matching an incoming order against the opposite side of a book
//! yields, as a function on the abstract state.

use crate::lemmas::lemma_first_where;
use crate::model::{live_in, total_qty, PriceLevelsView};
use crate::types::{OrderView, Side, TradeView};
use vstd::prelude::*;

verus! {

/// Whether an incoming order on `taker_side` with limit `taker_px` may
/// trade at `maker_px`: a bid at that price or above, an ask at that
/// price or below.
pub open spec fn crosses(taker_side: Side, taker_px: int, maker_px: int) -> bool {
    match taker_side {
        Side::Bid => taker_px >= maker_px,
        Side::Ask => taker_px <= maker_px,
    }
}

/// The smaller of two quantities.
pub open spec fn fill_qty(taker_qty: int, maker_qty: int) -> int {
    if taker_qty <= maker_qty {
        taker_qty
    } else {
        maker_qty
    }
}

/// The trade of `fill` between the resting `maker` and the incoming
/// `taker`: at the maker's price, stamped with the taker's time.
pub open spec fn trade_of(maker: OrderView, taker: OrderView, fill: int) -> TradeView {
    TradeView {
        maker: maker.id,
        taker: taker.id,
        symbol: taker.symbol,
        px: maker.px,
        qty: fill,
        ts: taker.ts,
    }
}

/// The total quantity of `trades`.
pub open spec fn traded_qty(trades: Seq<TradeView>) -> int
    decreases trades.len(),
{
    if trades.len() == 0 {
        0
    } else {
        traded_qty(trades.drop_last()) + trades.last().qty
    }
}

/// What matching an incoming order against the opposite side yields.
pub struct Matched {
    /// The trades, earliest first.
    pub trades: Seq<TradeView>,
    /// The opposite side after matching.
    pub opposite: PriceLevelsView,
    /// The quantity of the incoming order that is still open.
    pub remaining: int,
    /// The total quantity of the canceled orders that were dropped from
    /// the opposite side on the way.
    pub purged: int,
}

/// Matching `taker` against `opposite`.
///
/// While the taker has quantity open and its limit crosses the price at
/// the head of the opposite queue, the best live order of that side is
/// served as the maker. The head of the queue may be a canceled order of
/// a better price than the maker's, so the maker's own price is tested
/// too: a maker that the limit does not cross goes back to the head of
/// its price untouched, and the matching ends without a trade with it.
/// Otherwise both are filled by the smaller of their open quantities. A
/// maker with quantity left goes back to the head of its price, which
/// ends the matching, since the taker is then filled.
pub open spec fn match_against(opposite: PriceLevelsView, taker: OrderView) -> Matched
    decreases opposite.queue.len(),
    via match_against_decreases
{
    if taker.qty <= 0 || opposite.queue.len() == 0 || !crosses(
        taker.side,
        taker.px,
        opposite.queue[0].px,
    ) {
        Matched { trades: Seq::empty(), opposite, remaining: taker.qty, purged: 0 }
    } else {
        let popped = opposite.pop_best();
        match popped.order {
            None => Matched {
                trades: Seq::empty(),
                opposite: popped.after,
                remaining: taker.qty,
                purged: total_qty(opposite.queue),
            },
            Some(maker) => {
                let fill = fill_qty(taker.qty, maker.qty);
                let trade = trade_of(maker, taker, fill);
                let dropped = total_qty(opposite.queue.take(opposite.first_live()));
                if !crosses(taker.side, taker.px, maker.px) {
                    Matched {
                        trades: Seq::empty(),
                        opposite: popped.after.push_front(maker),
                        remaining: taker.qty,
                        purged: dropped,
                    }
                } else if maker.qty > taker.qty {
                    Matched {
                        trades: seq![trade],
                        opposite: popped.after.push_front(maker.with_qty(maker.qty - fill)),
                        remaining: taker.qty - fill,
                        purged: dropped,
                    }
                } else {
                    let next = match_against(popped.after, taker.with_qty(taker.qty - fill));
                    Matched {
                        trades: seq![trade] + next.trades,
                        opposite: next.opposite,
                        remaining: next.remaining,
                        purged: dropped + next.purged,
                    }
                }
            },
        }
    }
}

#[via_fn]
proof fn match_against_decreases(opposite: PriceLevelsView, taker: OrderView) {
    lemma_first_where(opposite.queue, live_in(opposite.canceled));
}

} // verus!
