//! The executable store for one side of a book.
//!
//! Orders are kept in a balanced tree from price to the queue of orders
//! at that price, so that the best price is found in logarithmic time.
//! Cancellation is lazy: an id is only marked, and an order that carries
//! a marked id is dropped when it reaches the head of the best price.

use crate::keys::prices_ascending;
use crate::lemmas::{
    lemma_back_slot, lemma_best_level, lemma_copies_without, lemma_descending_unique,
    lemma_drop_head, lemma_eager_remove_wf, lemma_filter_all, lemma_filter_behead_len,
    lemma_filter_commute, lemma_filter_insert_len, lemma_filter_keeps, lemma_filter_len_by_price,
    lemma_filter_member, lemma_filter_none, lemma_first_where_unique, lemma_front_slot,
    lemma_holds_is_copies, lemma_ladder, lemma_len_bound, lemma_push, lemma_push_front,
    lemma_without_head_wf,
};
use crate::model::{
    all_in_range, at_price, better, carrying, live_in, off_price, other_than, total_qty,
    PriceLevelsView,
};
use crate::snapshot::{clamp_usize, PriceLevel};
use crate::types::{order_views, Order, OrderId, OrderView, Side};
use std::collections::BTreeMap;
use std::collections::HashMap;
use std::collections::HashSet;
use std::collections::VecDeque;
use vstd::prelude::*;

verus! {

/// The resting orders of one side, by price and arrival, with the ids
/// marked as canceled.
pub struct PriceLevels {
    /// Which side this is: the lowest price is best for asks, the highest
    /// for bids.
    side: Side,
    /// The queue of resting orders at each price at which one rests.
    levels: BTreeMap<i64, VecDeque<Order>>,
    /// For each id under which an order rests, the number of orders that
    /// rest under it.
    counts: HashMap<u128, u128>,
    /// The ids marked as canceled.
    canceled: HashSet<u128>,
    /// The resting orders in the order in which they are served.
    queue: Ghost<Seq<OrderView>>,
}

/// The least price of `levels`, by `BTreeMap::first_key_value`.
///
/// Assumed of the standard library: the call returns the entry with the
/// minimum key, and nothing exactly when the map is empty.
#[verifier::external_body]
fn first_price(levels: &BTreeMap<i64, VecDeque<Order>>) -> (r: Option<i64>)
    ensures
        match r {
            Some(px) => levels@.contains_key(px) && forall|other: i64|
                levels@.contains_key(other) ==> px <= other,
            None => forall|other: i64| !levels@.contains_key(other),
        },
{
    match levels.first_key_value() {
        Some((px, _)) => Some(*px),
        None => None,
    }
}

/// The greatest price of `levels`, by `BTreeMap::last_key_value`.
///
/// Assumed of the standard library: the call returns the entry with the
/// maximum key, and nothing exactly when the map is empty.
#[verifier::external_body]
fn last_price(levels: &BTreeMap<i64, VecDeque<Order>>) -> (r: Option<i64>)
    ensures
        match r {
            Some(px) => levels@.contains_key(px) && forall|other: i64|
                levels@.contains_key(other) ==> px >= other,
            None => forall|other: i64| !levels@.contains_key(other),
        },
{
    match levels.last_key_value() {
        Some((px, _)) => Some(*px),
        None => None,
    }
}

/// Takes the orders that carry `id` out of `q`, and says whether there
/// was one.
fn without_id(q: VecDeque<Order>, id: u128) -> (r: (VecDeque<Order>, bool))
    ensures
        order_views(r.0@) == order_views(q@).filter(other_than(id)),
        r.1 ==> exists|i: int| 0 <= i < q@.len() && (#[trigger] q@[i]).id.0 == id,
        !r.1 ==> forall|i: int| 0 <= i < q@.len() ==> (#[trigger] q@[i]).id.0 != id,
{
    let ghost all = q@;
    let ghost mut seen: int = 0;
    let mut q = q;
    let mut kept: VecDeque<Order> = VecDeque::new();
    let mut found = false;
    proof {
        reveal(Seq::filter);
        assert(order_views(all.take(0)) =~= Seq::<OrderView>::empty());
        assert(all.skip(0) =~= all);
    }
    while q.len() > 0
        invariant
            0 <= seen <= all.len(),
            q@ == all.skip(seen),
            order_views(kept@) == order_views(all.take(seen)).filter(other_than(id)),
            found ==> exists|i: int| 0 <= i < all.len() && (#[trigger] all[i]).id.0 == id,
            !found ==> forall|i: int| 0 <= i < seen ==> (#[trigger] all[i]).id.0 != id,
        decreases q@.len(),
    {
        let ghost kept_before = kept@;
        match q.pop_front() {
            Some(order) => {
                proof {
                    reveal(Seq::filter);
                    assert(order == all[seen]);
                    let head = order_views(all.take(seen));
                    let next = order_views(all.take(seen + 1));
                    assert(next.drop_last() =~= head);
                    assert(next.last() == order@);
                    assert(all.skip(seen).skip(1) =~= all.skip(seen + 1));
                }
                if order.id.0 == id {
                    found = true;
                } else {
                    kept.push_back(order);
                    proof {
                        assert(order_views(kept@) =~= order_views(kept_before).push(order@));
                    }
                }
                proof {
                    seen = seen + 1;
                }
            },
            None => {},
        }
    }
    proof {
        assert(all.take(seen) =~= all);
    }
    (kept, found)
}

/// Adds up the orders of `q` whose id is not in `canceled`: their total
/// open quantity and their number.
fn add_up_live(q: &VecDeque<Order>, canceled: &HashSet<u128>) -> (r: (i128, usize))
    ensures
        r.0 == total_qty(order_views(q@).filter(live_in(canceled@))),
        r.1 == order_views(q@).filter(live_in(canceled@)).len(),
{
    let ghost live = live_in(canceled@);
    let mut qty: i128 = 0;
    let mut orders: usize = 0;
    let mut i: usize = 0;
    proof {
        reveal(Seq::filter);
        assert(order_views(q@.take(0)) =~= Seq::<OrderView>::empty());
    }
    while i < q.len()
        invariant
            0 <= i <= q@.len(),
            live == live_in(canceled@),
            qty == total_qty(order_views(q@.take(i as int)).filter(live)),
            orders == order_views(q@.take(i as int)).filter(live).len(),
            orders <= i,
            -(i * 0x8000_0000_0000_0000) <= qty <= i * 0x8000_0000_0000_0000,
        decreases q@.len() - i,
    {
        let id: u128 = q[i].id.0;
        let open: i64 = q[i].qty;
        proof {
            reveal(Seq::filter);
            let head = order_views(q@.take(i as int));
            let next = order_views(q@.take(i + 1));
            assert(next.drop_last() =~= head);
            assert(next.last() == q@[i as int]@);
            if live(q@[i as int]@) {
                assert(head.filter(live).push(q@[i as int]@).drop_last() =~= head.filter(live));
            }
        }
        if !canceled.contains(&id) {
            qty = qty + open as i128;
            orders = orders + 1;
        }
        i = i + 1;
    }
    proof {
        assert(q@.take(i as int) =~= q@);
    }
    (qty, orders)
}

/// Takes the orders that carry `id` out of the queue at `px`, closes the
/// price if its queue runs empty, and says whether there was such an
/// order.
fn strip_level(levels: &mut BTreeMap<i64, VecDeque<Order>>, px: i64, id: u128) -> (hit: bool)
    requires
        old(levels)@.contains_key(px),
    ensures
        forall|other: i64|
            other != px ==> (#[trigger] final(levels)@.contains_key(other)) == old(
                levels,
            )@.contains_key(other),
        forall|other: i64|
            other != px && #[trigger] final(levels)@.contains_key(other) ==> final(levels)@[other]
                == old(levels)@[other],
        final(levels)@.contains_key(px) <==> order_views(old(levels)@[px]@).filter(
            other_than(id),
        ).len() > 0,
        final(levels)@.contains_key(px) ==> order_views(final(levels)@[px]@) == order_views(
            old(levels)@[px]@,
        ).filter(other_than(id)),
        hit ==> exists|k: int|
            0 <= k < old(levels)@[px]@.len() && (#[trigger] old(levels)@[px]@[k]).id.0 == id,
        !hit ==> forall|k: int|
            0 <= k < old(levels)@[px]@.len() ==> (#[trigger] old(levels)@[px]@[k]).id.0 != id,
{
    match levels.remove(&px) {
        Some(q) => {
            let (kept, hit) = without_id(q, id);
            if kept.len() > 0 {
                levels.insert(px, kept);
            }
            hit
        },
        None => false,
    }
}

/// Whether `counts` holds, for each id that an order of `queue` carries,
/// the number of orders that carry it, and no other id.
spec fn counted(counts: Map<u128, u128>, queue: Seq<OrderView>) -> bool {
    &&& forall|id: u128| #[trigger]
        counts.contains_key(id) <==> queue.filter(carrying(id)).len() > 0
    &&& forall|id: u128| #[trigger]
        counts.contains_key(id) ==> counts[id] == queue.filter(carrying(id)).len()
}

/// The counts after one more order arrived under `id`.
spec fn one_more(counts: Map<u128, u128>, id: u128) -> Map<u128, u128> {
    counts.insert(
        id,
        if counts.contains_key(id) {
            (counts[id] + 1) as u128
        } else {
            1
        },
    )
}

/// The counts after one order left under `id`.
spec fn one_less(counts: Map<u128, u128>, id: u128) -> Map<u128, u128> {
    if counts.contains_key(id) && counts[id] > 1 {
        counts.insert(id, (counts[id] - 1) as u128)
    } else {
        counts.remove(id)
    }
}

/// Counts one more order under `id`.
fn count_one(counts: &mut HashMap<u128, u128>, id: u128)
    requires
        old(counts)@.contains_key(id) ==> old(counts)@[id] < u128::MAX,
    ensures
        final(counts)@ == one_more(old(counts)@, id),
{
    let n: u128 = match counts.get(&id) {
        Some(n) => *n,
        None => 0,
    };
    counts.insert(id, n + 1);
}

/// Counts one order less under `id`, and forgets an id under which none
/// is left.
fn forget_one(counts: &mut HashMap<u128, u128>, id: u128)
    ensures
        final(counts)@ == one_less(old(counts)@, id),
{
    let n: u128 = match counts.get(&id) {
        Some(n) => *n,
        None => 0,
    };
    if n > 1 {
        counts.insert(id, n - 1);
    } else {
        counts.remove(&id);
    }
}

/// The counts follow an order into the queue.
proof fn lemma_counted_insert(
    counts: Map<u128, u128>,
    queue: Seq<OrderView>,
    k: int,
    order: OrderView,
)
    requires
        counted(counts, queue),
        0 <= k <= queue.len(),
        queue.len() < u128::MAX,
    ensures
        counted(one_more(counts, order.id), queue.insert(k, order)),
{
    let after = queue.insert(k, order);
    queue.lemma_filter_len(carrying(order.id));
    assert forall|id: u128|
        (#[trigger] one_more(counts, order.id).contains_key(id) <==> after.filter(
            carrying(id),
        ).len() > 0) && (one_more(counts, order.id).contains_key(id) ==> one_more(
            counts,
            order.id,
        )[id] == after.filter(carrying(id)).len()) by {
        lemma_filter_insert_len(queue, k, order, carrying(id));
        assert(counts.contains_key(id) <==> queue.filter(carrying(id)).len() > 0);
    }
}

/// The counts follow the first order out of the queue.
proof fn lemma_counted_behead(counts: Map<u128, u128>, queue: Seq<OrderView>)
    requires
        counted(counts, queue),
        queue.len() > 0,
    ensures
        counted(one_less(counts, queue[0].id), queue.skip(1)),
{
    let gone = queue[0].id;
    let after = queue.skip(1);
    assert forall|id: u128|
        (#[trigger] one_less(counts, gone).contains_key(id) <==> after.filter(
            carrying(id),
        ).len() > 0) && (one_less(counts, gone).contains_key(id) ==> one_less(counts, gone)[id]
            == after.filter(carrying(id)).len()) by {
        lemma_filter_behead_len(queue, carrying(id));
        assert(counts.contains_key(id) <==> queue.filter(carrying(id)).len() > 0);
    }
}

/// The counts follow the orders of one id out of the queue.
proof fn lemma_counted_without(counts: Map<u128, u128>, queue: Seq<OrderView>, gone: u128)
    requires
        counted(counts, queue),
    ensures
        counted(counts.remove(gone), queue.filter(other_than(gone))),
{
    let after = queue.filter(other_than(gone));
    assert forall|id: u128|
        (#[trigger] counts.remove(gone).contains_key(id) <==> after.filter(carrying(id)).len()
            > 0) && (counts.remove(gone).contains_key(id) ==> counts.remove(gone)[id]
            == after.filter(carrying(id)).len()) by {
        lemma_copies_without(queue, gone, id);
        assert(counts.contains_key(id) <==> queue.filter(carrying(id)).len() > 0);
    }
}

impl View for PriceLevels {
    type V = PriceLevelsView;

    closed spec fn view(&self) -> PriceLevelsView {
        PriceLevelsView { side: self.side, queue: self.queue@, canceled: self.canceled@ }
    }
}

impl PriceLevels {
    /// The validity of a store: the tree holds, at each price, exactly the
    /// orders that the priority sequence holds at that price, in the same
    /// order, and no empty queue.
    pub closed spec fn wf(&self) -> bool {
        &&& self@.wf()
        &&& all_in_range(self.queue@)
        &&& counted(self.counts@, self.queue@)
        &&& forall|px: i64| #[trigger]
            self.levels@.contains_key(px) <==> self@.level(px as int).len() > 0
        &&& forall|px: i64| #[trigger]
            self.levels@.contains_key(px) ==> order_views(self.levels@[px]@) == self@.level(
                px as int,
            )
    }

    /// A valid store has a valid view, and every order of it fits the
    /// executable order type.
    pub proof fn lemma_valid_view(&self)
        requires
            self.wf(),
        ensures
            self@.wf(),
            all_in_range(self@.queue),
    {
    }

    /// The price at the head of the queue is a price of the tree, and no
    /// price of the tree is better.
    proof fn lemma_head_price(&self)
        requires
            self.wf(),
            self.queue@.len() > 0,
        ensures
            i64::MIN <= self.queue@[0].px <= i64::MAX,
            self.levels@.contains_key(self.queue@[0].px as i64),
            forall|other: i64|
                self.levels@.contains_key(other) ==> !better(
                    self.side,
                    other as int,
                    self.queue@[0].px,
                ),
    {
        let head = self.queue@[0];
        assert(head.in_range());
        lemma_filter_keeps(self.queue@, at_price(head.px), 0);
        assert(self.levels@.contains_key(head.px as i64));
        assert forall|other: i64| self.levels@.contains_key(other) implies !better(
            self.side,
            other as int,
            head.px,
        ) by {
            let level = self@.level(other as int);
            lemma_filter_member(self.queue@, at_price(other as int), 0);
            let i = choose|i: int|
                0 <= i < self.queue@.len() && #[trigger] self.queue@[i] == level[0];
            if i > 0 {
                assert(!better(self.side, self.queue@[i].px, self.queue@[0].px));
            }
        }
    }

    /// A store holds fewer orders than the number under one id can count.
    proof fn lemma_queue_bound(&self)
        requires
            self.wf(),
        ensures
            self.queue@.len() < u128::MAX,
    {
        let queue = self.queue@;
        let prices = self.levels@.dom();
        let most = usize::MAX as nat;
        assert forall|px: i64| #[trigger] prices.contains(px) implies queue.filter(
            at_price(px as int),
        ).len() <= most by {
            let level = self.levels@[px];
            assert(order_views(level@).len() == level@.len());
            assert(level.len() == level@.len());
        }
        assert forall|i: int| 0 <= i < queue.len() implies (#[trigger] queue[i]).in_range()
            && prices.contains(queue[i].px as i64) by {
            assert(queue[i].in_range());
            lemma_filter_keeps(queue, at_price(queue[i].px), i);
            assert(self.levels@.contains_key(queue[i].px as i64));
        }
        lemma_len_bound(queue, prices, most);
        assert(self.levels.len() == prices.len());
        let n = prices.len() as int;
        let m = most as int;
        assert(n * m < u128::MAX) by (nonlinear_arith)
            requires
                0 <= n <= 0xffff_ffff_ffff_ffff,
                0 <= m <= 0xffff_ffff_ffff_ffff,
                u128::MAX == 0xffff_ffff_ffff_ffff_ffff_ffff_ffff_ffff,
        ;
    }

    /// A store without a price holds no order.
    proof fn lemma_no_price(&self)
        requires
            self.wf(),
            forall|other: i64| !self.levels@.contains_key(other),
        ensures
            self.queue@.len() == 0,
    {
        if self.queue@.len() > 0 {
            self.lemma_head_price();
        }
    }

    /// Creates an empty store for `side`.
    pub fn new(side: Side) -> (s: Self)
        ensures
            s.wf(),
            s@ == PriceLevelsView::empty(side),
    {
        let s = PriceLevels {
            side,
            levels: BTreeMap::new(),
            counts: HashMap::new(),
            canceled: HashSet::new(),
            queue: Ghost(Seq::empty()),
        };
        proof {
            reveal(Seq::filter);
            assert forall|px: i64| s@.level(px as int).len() == 0 by {}
        }
        s
    }

    /// Adds `order` behind every resting order of its price, and opens
    /// the price if no order rests there.
    pub fn push(&mut self, order: Order)
        requires
            old(self).wf(),
        ensures
            final(self).wf(),
            final(self)@ == old(self)@.push(order@),
    {
        let ghost before = self@;
        let ghost o = order@;
        let ghost levels = self.levels@;
        let ghost counts = self.counts@;
        let px: i64 = order.px_ticks;
        proof {
            self.lemma_queue_bound();
            self.queue@.lemma_filter_len(carrying(o.id));
            lemma_back_slot(before, o.px);
            lemma_front_slot(before, o.px);
        }
        count_one(&mut self.counts, order.id.0);
        let mut q = match self.levels.remove(&px) {
            Some(q) => q,
            None => VecDeque::new(),
        };
        let ghost q_before = q@;
        q.push_back(order);
        self.levels.insert(px, q);
        proof {
            self.queue@ = before.push(o).queue;
            lemma_counted_insert(counts, before.queue, before.back_slot(o.px), o);
            lemma_push(before, o);
            lemma_back_slot(before, o.px);
            assert(o.in_range());
            assert(order_views(q_before) == before.level(px as int)) by {
                if !levels.contains_key(px) {
                    assert(before.level(px as int) =~= Seq::<OrderView>::empty());
                    assert(order_views(q_before) =~= Seq::<OrderView>::empty());
                }
            }
            assert(order_views(q@) =~= order_views(q_before).push(o));
            assert forall|other: i64| #[trigger]
                self.levels@.contains_key(other) <==> self@.level(other as int).len() > 0 by {
                if other != px {
                    assert(levels.contains_key(other) <==> before.level(other as int).len() > 0);
                }
            }
            assert forall|other: i64| #[trigger]
                self.levels@.contains_key(other) implies order_views(self.levels@[other]@)
                == self@.level(other as int) by {
                if other != px {
                    assert(levels.contains_key(other));
                }
            }
        }
    }

    /// Puts `order` back before every resting order of its price, and
    /// opens the price if no order rests there.
    pub fn push_front(&mut self, order: Order)
        requires
            old(self).wf(),
        ensures
            final(self).wf(),
            final(self)@ == old(self)@.push_front(order@),
    {
        let ghost before = self@;
        let ghost o = order@;
        let ghost levels = self.levels@;
        let ghost counts = self.counts@;
        let px: i64 = order.px_ticks;
        proof {
            self.lemma_queue_bound();
            self.queue@.lemma_filter_len(carrying(o.id));
            lemma_back_slot(before, o.px);
            lemma_front_slot(before, o.px);
        }
        count_one(&mut self.counts, order.id.0);
        let mut q = match self.levels.remove(&px) {
            Some(q) => q,
            None => VecDeque::new(),
        };
        let ghost q_before = q@;
        q.push_front(order);
        self.levels.insert(px, q);
        proof {
            self.queue@ = before.push_front(o).queue;
            lemma_counted_insert(counts, before.queue, before.front_slot(o.px), o);
            lemma_push_front(before, o);
            lemma_front_slot(before, o.px);
            assert(o.in_range());
            assert(order_views(q_before) == before.level(px as int)) by {
                if !levels.contains_key(px) {
                    assert(before.level(px as int) =~= Seq::<OrderView>::empty());
                    assert(order_views(q_before) =~= Seq::<OrderView>::empty());
                }
            }
            assert(order_views(q@) =~= seq![o] + order_views(q_before));
            assert forall|other: i64| #[trigger]
                self.levels@.contains_key(other) <==> self@.level(other as int).len() > 0 by {
                if other != px {
                    assert(levels.contains_key(other) <==> before.level(other as int).len() > 0);
                }
            }
            assert forall|other: i64| #[trigger]
                self.levels@.contains_key(other) implies order_views(self.levels@[other]@)
                == self@.level(other as int) by {
                if other != px {
                    assert(levels.contains_key(other));
                }
            }
        }
    }

    /// Returns the tree of resting orders: each price at which an order
    /// rests, with the orders at that price in the order in which they
    /// are served. Orders marked as canceled stay in it until they are
    /// dropped.
    pub fn get_price_levels(&self) -> (levels: &BTreeMap<i64, VecDeque<Order>>)
        requires
            self.wf(),
        ensures
            levels@.dom().finite(),
            forall|px: i64| #[trigger] levels@.contains_key(px) <==> self@.has_price(px as int),
            forall|px: i64| #[trigger]
                levels@.contains_key(px) ==> order_views(levels@[px]@) == self@.level(px as int),
    {
        proof {
            assert forall|px: i64| #[trigger]
                self.levels@.contains_key(px) <==> self@.has_price(px as int) by {
                if self.levels@.contains_key(px) {
                    lemma_filter_member(self.queue@, at_price(px as int), 0);
                }
                if self@.has_price(px as int) {
                    let i = choose|i: int|
                        0 <= i < self.queue@.len() && (#[trigger] self.queue@[i]).px == px as int;
                    lemma_filter_keeps(self.queue@, at_price(px as int), i);
                }
            }
        }
        &self.levels
    }

    /// Returns the best price of the store, with nothing removed: the
    /// lowest price for asks, the highest for bids, and nothing for an
    /// empty store. Orders marked as canceled count like the others.
    pub fn best_price(&self) -> (r: Option<i64>)
        requires
            self.wf(),
        ensures
            match r {
                Some(px) => self@.best_price() == Some(px as int),
                None => self@.best_price().is_none(),
            },
            forall|i: int|
                0 <= i < self@.queue.len() ==> r.is_some() && !better(
                    self@.side,
                    (#[trigger] self@.queue[i]).px,
                    r.unwrap() as int,
                ),
    {
        let r = match self.side {
            Side::Ask => first_price(&self.levels),
            Side::Bid => last_price(&self.levels),
        };
        proof {
            match r {
                Some(px) => {
                    lemma_filter_member(self.queue@, at_price(px as int), 0);
                    self.lemma_head_price();
                    assert(self.queue@[0].px == px);
                    assert forall|i: int| 0 <= i < self.queue@.len() implies !better(
                        self.side,
                        (#[trigger] self.queue@[i]).px,
                        px as int,
                    ) by {
                        if i > 0 {
                            assert(!better(self.side, self.queue@[i].px, self.queue@[0].px));
                        }
                    }
                },
                None => {
                    self.lemma_no_price();
                },
            }
        }
        r
    }

    /// Returns how many orders rest at the best price, and 0 for an empty
    /// store. Orders marked as canceled count like the others.
    pub fn best_level_size(&self) -> (n: usize)
        requires
            self.wf(),
        ensures
            n == self@.best_level_size(),
    {
        match self.best_price() {
            Some(px) => {
                match self.levels.get(&px) {
                    Some(q) => {
                        proof {
                            assert(order_views(q@).len() == q@.len());
                        }
                        q.len()
                    },
                    None => 0,
                }
            },
            None => 0,
        }
    }

    /// Removes and returns the best live order: the first order, in the
    /// order of service, whose id is not marked as canceled. The marked
    /// orders before it are dropped, and a price whose queue runs empty is
    /// closed. Returns nothing when no live order is left, and the store
    /// is then empty.
    pub fn pop_best(&mut self) -> (r: Option<Order>)
        requires
            old(self).wf(),
        ensures
            final(self).wf(),
            final(self)@ == old(self)@.pop_best().after,
            match r {
                Some(order) => old(self)@.pop_best().order == Some(order@),
                None => old(self)@.pop_best().order.is_none(),
            },
    {
        let ghost start = self@;
        let ghost mut dropped: int = 0;
        proof {
            assert(start.queue.skip(0) =~= start.queue);
        }
        loop
            invariant
                self.wf(),
                start == old(self)@,
                start.wf(),
                0 <= dropped <= start.queue.len(),
                self@ == start.without_head(dropped),
                forall|i: int|
                    0 <= i < dropped ==> start.canceled.contains((#[trigger] start.queue[i]).id),
            decreases self.queue@.len(),
        {
            let ghost here = self@;
            let px: i64 = match self.best_price() {
                Some(px) => px,
                None => {
                    proof {
                        lemma_first_where_unique(
                            start.queue,
                            live_in(start.canceled),
                            start.queue.len() as int,
                        );
                    }
                    return None;
                },
            };
            proof {
                lemma_best_level(here);
                self.lemma_head_price();
            }
            let mut q = match self.levels.remove(&px) {
                Some(q) => q,
                None => {
                    proof {
                        assert(false);
                    }
                    return None;
                },
            };
            let ghost level = q@;
            let ghost tree = self.levels@;
            let ghost mut marked: int = 0;
            proof {
                assert(order_views(level) == here.level(px as int));
                assert(order_views(level).len() == level.len());
                assert(dropped + level.len() <= start.queue.len());
                assert forall|i: int| 0 <= i < level.len() implies start.queue[dropped + i]
                    == (#[trigger] level[i])@ by {
                    assert(here.queue.take(level.len() as int)[i] == start.queue[dropped + i]);
                    assert(order_views(level)[i] == level[i]@);
                }
            }
            loop
                invariant
                    0 <= marked <= level.len(),
                    0 <= dropped,
                    dropped + level.len() <= start.queue.len(),
                    q@ == level.skip(marked),
                    self.side == start.side,
                    self.levels@ == tree,
                    self.queue@ == here.queue,
                    self.canceled@ == start.canceled,
                    counted(self.counts@, start.queue.skip(dropped + marked)),
                    forall|i: int|
                        0 <= i < level.len() ==> start.queue[dropped + i] == (#[trigger] level[i])@,
                    forall|i: int|
                        0 <= i < marked ==> start.canceled.contains((#[trigger] level[i]).id.0),
                ensures
                    q@.len() > 0 ==> !start.canceled.contains(q@[0].id.0),
                decreases q@.len(),
            {
                if q.len() == 0 {
                    break ;
                }
                let id: u128 = q[0].id.0;
                if !self.canceled.contains(&id) {
                    break ;
                }
                q.pop_front();
                proof {
                    let rest = start.queue.skip(dropped + marked);
                    assert(id == level[marked].id.0);
                    assert(rest[0] == level[marked]@);
                    lemma_counted_behead(self.counts@, rest);
                    assert(rest.skip(1) =~= start.queue.skip(dropped + marked + 1));
                    assert(level.skip(marked).skip(1) =~= level.skip(marked + 1));
                }
                forget_one(&mut self.counts, id);
                proof {
                    marked = marked + 1;
                }
            }
            proof {
                assert forall|i: int| 0 <= i < dropped + marked implies start.canceled.contains(
                    (#[trigger] start.queue[i]).id,
                ) by {
                    if i >= dropped {
                        assert(start.queue[i] == level[i - dropped]@);
                    }
                }
            }
            match q.pop_front() {
                Some(order) => {
                    let id: u128 = order.id.0;
                    if q.len() > 0 {
                        self.levels.insert(px, q);
                    }
                    proof {
                        let rest = start.queue.skip(dropped + marked);
                        assert(rest[0] == level[marked]@);
                        lemma_counted_behead(self.counts@, rest);
                        assert(rest.skip(1) =~= start.queue.skip(dropped + marked + 1));
                    }
                    forget_one(&mut self.counts, id);
                    proof {
                        let cut = marked + 1;
                        self.queue@ = here.queue.skip(cut);
                        lemma_drop_head(here, cut);
                        assert(order_views(q@) =~= order_views(level).skip(cut));
                        assert(order == level[marked]);
                        lemma_first_where_unique(
                            start.queue,
                            live_in(start.canceled),
                            dropped + marked,
                        );
                        assert(start.queue.skip(dropped).skip(cut) =~= start.queue.skip(
                            dropped + cut,
                        ));
                        assert(self@ == start.without_head(dropped + cut));
                        lemma_without_head_wf(start, dropped + cut);
                        assert forall|i: int| 0 <= i < self.queue@.len() implies (
                        #[trigger] self.queue@[i]).in_range() by {
                            assert(self.queue@[i] == here.queue[cut + i]);
                        }
                    }
                    return Some(order);
                },
                None => {
                    proof {
                        let cut = level.len() as int;
                        self.queue@ = here.queue.skip(cut);
                        lemma_drop_head(here, cut);
                        assert(here.level(px as int).skip(cut) =~= Seq::<OrderView>::empty());
                        assert(start.queue.skip(dropped).skip(cut) =~= start.queue.skip(
                            dropped + cut,
                        ));
                        assert(self@ == start.without_head(dropped + cut));
                        lemma_without_head_wf(start, dropped + cut);
                        dropped = dropped + cut;
                        assert forall|i: int| 0 <= i < self.queue@.len() implies (
                        #[trigger] self.queue@[i]).in_range() by {
                            assert(self.queue@[i] == here.queue[cut + i]);
                        }
                    }
                },
            }
        }
    }

    /// Removes at once every resting order that carries `id`, wherever it
    /// rests, and says whether there was one. The ids marked as canceled
    /// are left as they are. The whole store is walked: this is for
    /// housekeeping, not for the matching path.
    pub fn eager_remove(&mut self, id: OrderId) -> (found: bool)
        requires
            old(self).wf(),
        ensures
            final(self).wf(),
            final(self)@ == old(self)@.eager_remove(id.0).after,
            found == old(self)@.eager_remove(id.0).changed,
    {
        let ghost start = self@;
        let ghost levels = self.levels@;
        let ghost counts = self.counts@;
        let ghost gone = other_than(id.0);
        let ghost mut done: Set<i64> = Set::empty();
        let prices = prices_ascending(&self.levels);
        let mut found = false;
        let mut i: usize = 0;
        while i < prices.len()
            invariant
                old(self).wf(),
                start == old(self)@,
                levels == old(self).levels@,
                gone == other_than(id.0),
                self.side == start.side,
                self.canceled@ == start.canceled,
                self.counts@ == counts,
                counted(counts, start.queue),
                self.queue@ == start.queue,
                0 <= i <= prices@.len(),
                forall|px: i64| levels.contains_key(px) <==> prices@.contains(px),
                forall|a: int, b: int| 0 <= a < b < prices@.len() ==> prices@[a] < prices@[b],
                forall|j: int|
                    0 <= j < prices@.len() ==> (done.contains(#[trigger] prices@[j]) <==> j < i),
                forall|px: i64| #[trigger] done.contains(px) ==> levels.contains_key(px),
                forall|px: i64|
                    !done.contains(px) ==> (#[trigger] self.levels@.contains_key(px))
                        == levels.contains_key(px),
                forall|px: i64|
                    !done.contains(px) && #[trigger] self.levels@.contains_key(px)
                        ==> self.levels@[px] == levels[px],
                forall|px: i64|
                    done.contains(px) ==> ((#[trigger] self.levels@.contains_key(px))
                        <==> start.level(px as int).filter(gone).len() > 0),
                forall|px: i64|
                    done.contains(px) && #[trigger] self.levels@.contains_key(px) ==> order_views(
                        self.levels@[px]@,
                    ) == start.level(px as int).filter(gone),
                found ==> start.holds(id.0),
                !found ==> forall|px: i64, k: int|
                    done.contains(px) && 0 <= k < start.level(px as int).len() ==> (
                    #[trigger] start.level(px as int)[k]).id != id.0,
            decreases prices@.len() - i,
        {
            let px: i64 = prices[i];
            let ghost tree = self.levels@;
            let ghost level = tree[px]@;
            proof {
                assert(prices@.contains(px));
                assert(!done.contains(px));
                assert(tree.contains_key(px));
                assert(tree[px] == levels[px]);
                assert(order_views(level) == start.level(px as int));
            }
            let hit = strip_level(&mut self.levels, px, id.0);
            proof {
                if hit {
                    let k = choose|k: int|
                        0 <= k < level.len() && (#[trigger] level[k]).id.0 == id.0;
                    assert(order_views(level)[k].id == id.0);
                    lemma_filter_member(start.queue, at_price(px as int), k);
                } else {
                    assert forall|k: int| 0 <= k < start.level(px as int).len() implies (
                    #[trigger] start.level(px as int)[k]).id != id.0 by {
                        assert(order_views(level)[k] == level[k]@);
                    }
                }
            }
            if hit {
                found = true;
            }
            proof {
                done = done.insert(px);
                assert forall|j: int| 0 <= j < prices@.len() implies (done.contains(
                    #[trigger] prices@[j],
                ) <==> j < i + 1) by {
                    if j < i {
                        assert(prices@[j] < prices@[i as int]);
                    } else if j > i {
                        assert(prices@[i as int] < prices@[j]);
                    }
                }
                assert forall|other: i64| !done.contains(other) implies (
                #[trigger] self.levels@.contains_key(other)) == levels.contains_key(other) by {
                    assert(tree.contains_key(other) == levels.contains_key(other));
                }
                assert forall|other: i64|
                    !done.contains(other) && #[trigger] self.levels@.contains_key(
                        other,
                    ) implies self.levels@[other] == levels[other] by {
                    assert(tree.contains_key(other));
                }
                assert forall|other: i64| done.contains(other) implies ((
                #[trigger] self.levels@.contains_key(other)) <==> start.level(other as int).filter(
                    gone,
                ).len() > 0) by {
                    if other != px {
                        assert(tree.contains_key(other) <==> start.level(other as int).filter(
                            gone,
                        ).len() > 0);
                    }
                }
                assert forall|other: i64|
                    done.contains(other) && #[trigger] self.levels@.contains_key(
                        other,
                    ) implies order_views(self.levels@[other]@) == start.level(
                    other as int,
                ).filter(gone) by {
                    if other != px {
                        assert(tree.contains_key(other));
                    }
                }
            }
            i = i + 1;
        }
        self.counts.remove(&id.0);
        proof {
            self.queue@ = start.queue.filter(gone);
            lemma_counted_without(counts, start.queue, id.0);
            lemma_eager_remove_wf(start, id.0);
            assert forall|k: int| 0 <= k < self.queue@.len() implies (
            #[trigger] self.queue@[k]).in_range() by {
                lemma_filter_member(start.queue, gone, k);
            }
            assert forall|px: i64| levels.contains_key(px) implies done.contains(px) by {
                assert(prices@.contains(px));
            }
            assert forall|px: i64|
                (#[trigger] self.levels@.contains_key(px) <==> self@.level(px as int).len() > 0)
                    && (self.levels@.contains_key(px) ==> order_views(self.levels@[px]@)
                    == self@.level(px as int)) by {
                lemma_filter_commute(start.queue, gone, at_price(px as int));
                if !levels.contains_key(px) {
                    assert(start.level(px as int).len() == 0);
                    lemma_filter_none(start.level(px as int), gone);
                }
            }
            if !found {
                if start.holds(id.0) {
                    let k = choose|k: int|
                        0 <= k < start.queue.len() && (#[trigger] start.queue[k]).id == id.0;
                    let px = start.queue[k].px;
                    assert(start.queue[k].in_range());
                    lemma_filter_keeps(start.queue, at_price(px), k);
                    assert(levels.contains_key(px as i64));
                    let j = choose|j: int|
                        0 <= j < start.level(px).len() && #[trigger] start.level(px)[j]
                            == start.queue[k];
                    assert(start.level(px as i64 as int)[j].id == id.0);
                }
            }
        }
        found
    }

    /// Returns the number of live resting orders: those whose id is not
    /// marked as canceled. A number beyond `usize` is returned as the
    /// greatest `usize`.
    pub fn total_len(&self) -> (n: usize)
        requires
            self.wf(),
        ensures
            n == clamp_usize(self@.live().len() as int),
    {
        let ghost queue = self.queue@;
        let ghost live = live_in(self.canceled@);
        let ghost mut rest = queue;
        let ghost mut counted: int = 0;
        let prices = prices_ascending(&self.levels);
        let mut n: usize = 0;
        let mut i: usize = 0;
        proof {
            assert forall|k: int| 0 <= k < rest.len() implies 0 < prices@.len() && (
            #[trigger] rest[k]).px >= prices@[0] && rest[k].in_range()
                && self.levels@.contains_key(rest[k].px as i64) by {
                let px = rest[k].px;
                assert(rest[k].in_range());
                lemma_filter_keeps(queue, at_price(px), k);
                assert(self.levels@.contains_key(px as i64));
                assert(prices@.contains(px as i64));
                let at = choose|at: int| 0 <= at < prices@.len() && prices@[at] == px as i64;
                if at > 0 {
                    assert(prices@[0] < prices@[at]);
                }
            }
        }
        while i < prices.len()
            invariant
                self.wf(),
                queue == self.queue@,
                live == live_in(self.canceled@),
                0 <= i <= prices@.len(),
                forall|px: i64| self.levels@.contains_key(px) <==> prices@.contains(px),
                forall|a: int, b: int| 0 <= a < b < prices@.len() ==> prices@[a] < prices@[b],
                counted + rest.filter(live).len() == queue.filter(live).len(),
                0 <= counted,
                n == clamp_usize(counted),
                forall|j: int|
                    i <= j < prices@.len() ==> rest.filter(at_price(#[trigger] prices@[j] as int))
                        == queue.filter(at_price(prices@[j] as int)),
                forall|k: int|
                    0 <= k < rest.len() ==> i < prices@.len() && (#[trigger] rest[k]).px
                        >= prices@[i as int],
                forall|k: int|
                    0 <= k < rest.len() ==> (#[trigger] rest[k]).in_range()
                        && self.levels@.contains_key(rest[k].px as i64),
            decreases prices@.len() - i,
        {
            let px: i64 = prices[i];
            proof {
                assert(prices@.contains(px));
            }
            let here: usize = match self.levels.get(&px) {
                Some(q) => add_up_live(q, &self.canceled).1,
                None => 0,
            };
            proof {
                let at = at_price(px as int);
                let off = off_price(px as int);
                let next = rest.filter(off);
                assert(here == queue.filter(at).filter(live).len());
                lemma_filter_len_by_price(rest, px as int, live);
                assert forall|j: int| i + 1 <= j < prices@.len() implies next.filter(
                    at_price(#[trigger] prices@[j] as int),
                ) == queue.filter(at_price(prices@[j] as int)) by {
                    let other = at_price(prices@[j] as int);
                    lemma_filter_commute(rest, off, other);
                    let level = rest.filter(other);
                    assert(prices@[i as int] < prices@[j]);
                    assert forall|k: int| 0 <= k < level.len() implies off(#[trigger] level[k]) by {
                        lemma_filter_member(rest, other, k);
                    }
                    lemma_filter_all(level, off);
                }
                assert forall|k: int| 0 <= k < next.len() implies i + 1 < prices@.len() && (
                #[trigger] next[k]).px >= prices@[i + 1] && next[k].in_range()
                    && self.levels@.contains_key(next[k].px as i64) by {
                    lemma_filter_member(rest, off, k);
                    let m = choose|m: int| 0 <= m < rest.len() && #[trigger] rest[m] == next[k];
                    let other = rest[m].px as i64;
                    assert(prices@.contains(other));
                    let at = choose|at: int| 0 <= at < prices@.len() && prices@[at] == other;
                    if at < i {
                        assert(prices@[at] < prices@[i as int]);
                    }
                    if at > i + 1 {
                        assert(prices@[i + 1] < prices@[at]);
                    }
                }
                rest = next;
                counted = counted + here;
            }
            n = if here > usize::MAX - n {
                usize::MAX
            } else {
                n + here
            };
            i = i + 1;
        }
        proof {
            if rest.len() > 0 {
                assert(rest[0].px >= prices@[i as int]);
            }
            reveal(Seq::filter);
        }
        n
    }

    /// The prices of the tree, from the best to the worst, are the ladder
    /// of the queue.
    proof fn lemma_ladder_is_prices(&self, prices: Seq<i64>)
        requires
            self.wf(),
            forall|px: i64| self.levels@.contains_key(px) <==> prices.contains(px),
            forall|a: int, b: int| 0 <= a < b < prices.len() ==> prices[a] < prices[b],
        ensures
            self@.ladder().len() == prices.len(),
            forall|t: int|
                0 <= t < prices.len() ==> #[trigger] self@.ladder()[t] == prices[if self.side
                    == Side::Ask {
                    t
                } else {
                    prices.len() - 1 - t
                }],
    {
        let n = prices.len() as int;
        let side = self.side;
        let listed = Seq::new(
            prices.len(),
            |t: int|
                prices[if side == Side::Ask {
                    t
                } else {
                    n - 1 - t
                }] as int,
        );
        let ladder = self@.ladder();
        lemma_ladder(side, self.queue@);
        assert forall|a: int, b: int| 0 <= a < b < listed.len() implies better(
            side,
            listed[a],
            listed[b],
        ) by {
            if side == Side::Ask {
                assert(prices[a] < prices[b]);
            } else {
                assert(prices[n - 1 - b] < prices[n - 1 - a]);
            }
        }
        assert forall|px: int| ladder.contains(px) <==> listed.contains(px) by {
            if ladder.contains(px) {
                let i = choose|i: int|
                    0 <= i < self.queue@.len() && (#[trigger] self.queue@[i]).px == px;
                assert(self.queue@[i].in_range());
                lemma_filter_keeps(self.queue@, at_price(px), i);
                assert(self.levels@.contains_key(px as i64));
                assert(prices.contains(px as i64));
                let at = choose|at: int| 0 <= at < prices.len() && prices[at] == px as i64;
                let t = if side == Side::Ask {
                    at
                } else {
                    n - 1 - at
                };
                assert(listed[t] == px);
            }
            if listed.contains(px) {
                let t = choose|t: int| 0 <= t < listed.len() && listed[t] == px;
                let at = if side == Side::Ask {
                    t
                } else {
                    n - 1 - t
                };
                assert(prices.contains(prices[at]));
                assert(self.levels@.contains_key(prices[at]));
                lemma_filter_member(self.queue@, at_price(px), 0);
            }
        }
        lemma_descending_unique(side, ladder, listed);
    }

    /// Returns the number of prices at which an order rests.
    pub fn level_count(&self) -> (n: usize)
        requires
            self.wf(),
        ensures
            n == self@.ladder().len(),
    {
        let prices = prices_ascending(&self.levels);
        proof {
            self.lemma_ladder_is_prices(prices@);
        }
        prices.len()
    }

    /// Returns the best prices of the store, best first: all of them, or
    /// the `max_levels` best where there are more. Each comes with the
    /// total open quantity and the number of the live orders at that
    /// price, those whose id is not marked as canceled; a total beyond
    /// 64 bits is returned as the nearest bound.
    pub fn levels_best_first(&self, max_levels: usize) -> (levels: Vec<PriceLevel>)
        requires
            self.wf(),
        ensures
            levels@ == self@.best_levels(max_levels as int),
    {
        let prices = prices_ascending(&self.levels);
        let count: usize = if max_levels < prices.len() {
            max_levels
        } else {
            prices.len()
        };
        let mut levels: Vec<PriceLevel> = Vec::new();
        let mut i: usize = 0;
        proof {
            self.lemma_ladder_is_prices(prices@);
        }
        while i < count
            invariant
                self.wf(),
                count <= prices@.len(),
                self@.ladder().len() == prices@.len(),
                0 <= i <= count,
                levels@.len() == i,
                forall|px: i64| self.levels@.contains_key(px) <==> prices@.contains(px),
                forall|t: int|
                    0 <= t < prices@.len() ==> #[trigger] self@.ladder()[t] == prices@[if self.side
                        == Side::Ask {
                        t
                    } else {
                        prices@.len() - 1 - t
                    }],
                forall|t: int|
                    0 <= t < i ==> #[trigger] levels@[t] == self@.level_summary(self@.ladder()[t]),
            decreases count - i,
        {
            let at: usize = match self.side {
                Side::Ask => i,
                Side::Bid => prices.len() - 1 - i,
            };
            let px: i64 = prices[at];
            proof {
                assert(prices@.contains(px));
                assert(self@.ladder()[i as int] == px);
            }
            let (qty, orders) = match self.levels.get(&px) {
                Some(q) => {
                    proof {
                        assert(order_views(q@).len() == q@.len());
                        order_views(q@).lemma_filter_len(live_in(self.canceled@));
                    }
                    add_up_live(q, &self.canceled)
                },
                None => (0, 0),
            };
            let quantity: i64 = if qty > i64::MAX as i128 {
                i64::MAX
            } else if qty < i64::MIN as i128 {
                i64::MIN
            } else {
                qty as i64
            };
            levels.push(PriceLevel { price: px, quantity, orders });
            i = i + 1;
        }
        proof {
            assert(levels@ =~= self@.best_levels(max_levels as int));
        }
        levels
    }

    /// Marks `id` as canceled, and says whether this canceled an order:
    /// whether an order rests under `id` and `id` was not marked before.
    /// The order stays where it is until it reaches the head of the best
    /// price.
    pub fn cancel(&mut self, id: OrderId) -> (newly: bool)
        requires
            old(self).wf(),
        ensures
            final(self).wf(),
            final(self)@ == old(self)@.cancel(id.0).after,
            newly == old(self)@.cancel(id.0).changed,
    {
        proof {
            lemma_holds_is_copies(self@, id.0);
        }
        let resting = self.counts.contains_key(&id.0);
        let fresh = self.canceled.insert(id.0);
        resting && fresh
    }
}

} // verus!
