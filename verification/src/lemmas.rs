//! Facts about priority sequences that the proofs of the store and of the
//! book share.

use crate::model::{
    all_positive, at_price, better, carrying, first_where, ladder_of, live_in, not_better_than,
    off_price, other_than, sorted, total_qty, worse_than, PriceLevelsView,
};
use crate::types::{OrderView, Side};
use vstd::prelude::*;

verus! {

/// `first_where` returns an index at which `f` holds for the first time.
pub proof fn lemma_first_where(queue: Seq<OrderView>, f: spec_fn(OrderView) -> bool)
    ensures
        0 <= first_where(queue, f) <= queue.len(),
        forall|i: int| 0 <= i < first_where(queue, f) ==> !f(#[trigger] queue[i]),
        first_where(queue, f) < queue.len() ==> f(queue[first_where(queue, f)]),
    decreases queue.len(),
{
    if queue.len() > 0 && !f(queue[0]) {
        let rest = queue.drop_first();
        lemma_first_where(rest, f);
        assert forall|i: int| 0 <= i < first_where(queue, f) implies !f(#[trigger] queue[i]) by {
            if i > 0 {
                assert(queue[i] == rest[i - 1]);
            }
        }
    }
}

/// An index at which `f` holds for the first time is what `first_where`
/// returns.
pub proof fn lemma_first_where_unique(
    queue: Seq<OrderView>,
    f: spec_fn(OrderView) -> bool,
    k: int,
)
    requires
        0 <= k <= queue.len(),
        forall|i: int| 0 <= i < k ==> !f(#[trigger] queue[i]),
        k < queue.len() ==> f(queue[k]),
    ensures
        first_where(queue, f) == k,
{
    lemma_first_where(queue, f);
    let r = first_where(queue, f);
    if r < k {
        assert(!f(queue[r]));
    } else if k < r {
        assert(!f(queue[k]));
    }
}

/// Every order that a filter keeps is an order of the queue and
/// satisfies the filter.
pub proof fn lemma_filter_member(queue: Seq<OrderView>, f: spec_fn(OrderView) -> bool, j: int)
    requires
        0 <= j < queue.filter(f).len(),
    ensures
        f(queue.filter(f)[j]),
        exists|i: int| 0 <= i < queue.len() && #[trigger] queue[i] == queue.filter(f)[j],
    decreases queue.len(),
{
    reveal(Seq::filter);
    if queue.len() > 0 {
        let rest = queue.drop_last();
        if j < rest.filter(f).len() {
            lemma_filter_member(rest, f, j);
            let i = choose|i: int| 0 <= i < rest.len() && #[trigger] rest[i] == rest.filter(f)[j];
            assert(queue[i] == queue.filter(f)[j]);
        } else {
            assert(queue[queue.len() - 1] == queue.filter(f)[j]);
        }
    }
}

/// Every order of the queue that satisfies a filter is kept by it.
pub proof fn lemma_filter_keeps(queue: Seq<OrderView>, f: spec_fn(OrderView) -> bool, i: int)
    requires
        0 <= i < queue.len(),
        f(queue[i]),
    ensures
        exists|j: int| 0 <= j < queue.filter(f).len() && #[trigger] queue.filter(f)[j] == queue[i],
    decreases queue.len(),
{
    reveal(Seq::filter);
    let rest = queue.drop_last();
    if i < rest.len() {
        lemma_filter_keeps(rest, f, i);
        let j = choose|j: int|
            0 <= j < rest.filter(f).len() && #[trigger] rest.filter(f)[j] == rest[i];
        assert(queue.filter(f)[j] == queue[i]);
    } else {
        assert(queue.filter(f)[queue.filter(f).len() - 1] == queue[i]);
    }
}

/// A filter that no order satisfies keeps nothing.
pub proof fn lemma_filter_none(queue: Seq<OrderView>, f: spec_fn(OrderView) -> bool)
    requires
        forall|i: int| 0 <= i < queue.len() ==> !f(#[trigger] queue[i]),
    ensures
        queue.filter(f) == Seq::<OrderView>::empty(),
    decreases queue.len(),
{
    reveal(Seq::filter);
    if queue.len() > 0 {
        let rest = queue.drop_last();
        assert forall|i: int| 0 <= i < rest.len() implies !f(#[trigger] rest[i]) by {
            assert(rest[i] == queue[i]);
        }
        lemma_filter_none(rest, f);
    }
}

/// A filter that every order satisfies keeps the queue as it is.
pub proof fn lemma_filter_all(queue: Seq<OrderView>, f: spec_fn(OrderView) -> bool)
    requires
        forall|i: int| 0 <= i < queue.len() ==> f(#[trigger] queue[i]),
    ensures
        queue.filter(f) == queue,
    decreases queue.len(),
{
    reveal(Seq::filter);
    if queue.len() > 0 {
        let rest = queue.drop_last();
        assert forall|i: int| 0 <= i < rest.len() implies f(#[trigger] rest[i]) by {
            assert(rest[i] == queue[i]);
        }
        lemma_filter_all(rest, f);
        assert(rest.push(queue.last()) =~= queue);
    }
}

/// A filter works on the two sides of a cut independently.
pub proof fn lemma_filter_split(queue: Seq<OrderView>, k: int, f: spec_fn(OrderView) -> bool)
    requires
        0 <= k <= queue.len(),
    ensures
        queue.filter(f) == queue.take(k).filter(f) + queue.skip(k).filter(f),
{
    assert(queue =~= queue.take(k) + queue.skip(k));
    Seq::filter_distributes_over_add(queue.take(k), queue.skip(k), f);
}

/// A filter on a queue with one more order in it.
pub proof fn lemma_filter_insert(
    queue: Seq<OrderView>,
    k: int,
    order: OrderView,
    f: spec_fn(OrderView) -> bool,
)
    requires
        0 <= k <= queue.len(),
    ensures
        queue.insert(k, order).filter(f) == queue.take(k).filter(f) + (if f(order) {
            seq![order]
        } else {
            Seq::empty()
        }) + queue.skip(k).filter(f),
{
    reveal(Seq::filter);
    let one = seq![order];
    assert(queue.insert(k, order) =~= queue.take(k) + one + queue.skip(k));
    Seq::filter_distributes_over_add(queue.take(k) + one, queue.skip(k), f);
    Seq::filter_distributes_over_add(queue.take(k), one, f);
    assert(one.drop_last() =~= Seq::<OrderView>::empty());
    assert(one.drop_last().filter(f) =~= Seq::<OrderView>::empty());
    assert(one.filter(f) =~= if f(order) {
        one
    } else {
        Seq::empty()
    });
}

/// Two filters can be applied in either order.
pub proof fn lemma_filter_commute(
    queue: Seq<OrderView>,
    f: spec_fn(OrderView) -> bool,
    g: spec_fn(OrderView) -> bool,
)
    ensures
        queue.filter(f).filter(g) == queue.filter(g).filter(f),
    decreases queue.len(),
{
    reveal(Seq::filter);
    if queue.len() > 0 {
        let rest = queue.drop_last();
        let last = queue.last();
        lemma_filter_commute(rest, f, g);
        if f(last) {
            let a = rest.filter(f);
            assert(a.push(last).drop_last() =~= a);
        }
        if g(last) {
            let b = rest.filter(g);
            assert(b.push(last).drop_last() =~= b);
        }
    }
}

/// What a filter keeps is what it keeps at one price and what it keeps
/// at all the others.
pub proof fn lemma_filter_len_by_price(
    queue: Seq<OrderView>,
    px: int,
    f: spec_fn(OrderView) -> bool,
)
    ensures
        queue.filter(f).len() == queue.filter(at_price(px)).filter(f).len() + queue.filter(
            off_price(px),
        ).filter(f).len(),
    decreases queue.len(),
{
    reveal(Seq::filter);
    if queue.len() > 0 {
        let rest = queue.drop_last();
        let last = queue.last();
        lemma_filter_len_by_price(rest, px, f);
        let a = rest.filter(at_price(px));
        let b = rest.filter(off_price(px));
        assert(a.push(last).drop_last() =~= a);
        assert(b.push(last).drop_last() =~= b);
    }
}

/// A filter keeps the price order.
pub proof fn lemma_filter_sorted(side: Side, queue: Seq<OrderView>, f: spec_fn(OrderView) -> bool)
    requires
        sorted(side, queue),
    ensures
        sorted(side, queue.filter(f)),
    decreases queue.len(),
{
    reveal(Seq::filter);
    if queue.len() > 0 {
        let rest = queue.drop_last();
        let last = queue.last();
        assert(sorted(side, rest)) by {
            assert forall|i: int, j: int| 0 <= i < j < rest.len() implies !better(
                side,
                rest[j].px,
                rest[i].px,
            ) by {
                assert(rest[i] == queue[i] && rest[j] == queue[j]);
            }
        }
        lemma_filter_sorted(side, rest, f);
        let kept = rest.filter(f);
        if f(last) {
            assert forall|i: int, j: int| 0 <= i < j < kept.len() + 1 implies !better(
                side,
                kept.push(last)[j].px,
                kept.push(last)[i].px,
            ) by {
                if j == kept.len() {
                    lemma_filter_member(rest, f, i);
                    let m = choose|m: int| 0 <= m < rest.len() && #[trigger] rest[m] == kept[i];
                    assert(queue[m] == kept[i]);
                    assert(queue[queue.len() - 1] == last);
                }
            }
        }
    }
}

/// The quantity of a queue is the quantity of its two parts.
pub proof fn lemma_total_qty_concat(a: Seq<OrderView>, b: Seq<OrderView>)
    ensures
        total_qty(a + b) == total_qty(a) + total_qty(b),
    decreases b.len(),
{
    if b.len() == 0 {
        assert(a + b =~= a);
    } else {
        lemma_total_qty_concat(a, b.drop_last());
        assert((a + b).drop_last() =~= a + b.drop_last());
    }
}

/// The quantity of a queue with one more order in it.
pub proof fn lemma_total_qty_insert(queue: Seq<OrderView>, k: int, order: OrderView)
    requires
        0 <= k <= queue.len(),
    ensures
        total_qty(queue.insert(k, order)) == total_qty(queue) + order.qty,
{
    let one = seq![order];
    assert(queue.insert(k, order) =~= queue.take(k) + one + queue.skip(k));
    assert(queue =~= queue.take(k) + queue.skip(k));
    lemma_total_qty_concat(queue.take(k), queue.skip(k));
    lemma_total_qty_concat(queue.take(k) + one, queue.skip(k));
    lemma_total_qty_concat(queue.take(k), one);
    assert(one.drop_last().len() == 0);
    assert(total_qty(one.drop_last()) == 0);
    assert(one.last() == order);
}

/// The quantity of a queue is that of its head, of the order behind the
/// head, and of what follows.
pub proof fn lemma_total_qty_cut(queue: Seq<OrderView>, i: int)
    requires
        0 <= i < queue.len(),
    ensures
        total_qty(queue) == total_qty(queue.take(i)) + queue[i].qty + total_qty(queue.skip(i + 1)),
{
    let one = seq![queue[i]];
    assert(queue =~= queue.take(i) + one + queue.skip(i + 1));
    lemma_total_qty_concat(queue.take(i) + one, queue.skip(i + 1));
    lemma_total_qty_concat(queue.take(i), one);
    assert(one.drop_last().len() == 0);
    assert(total_qty(one.drop_last()) == 0);
    assert(one.last() == queue[i]);
}

/// An arriving order goes between the orders priced at least as well as
/// it and the orders priced worse.
pub proof fn lemma_back_slot(v: PriceLevelsView, px: int)
    requires
        sorted(v.side, v.queue),
    ensures
        0 <= v.back_slot(px) <= v.queue.len(),
        forall|i: int| 0 <= i < v.back_slot(px) ==> !better(v.side, px, (#[trigger] v.queue[i]).px),
        forall|i: int|
            v.back_slot(px) <= i < v.queue.len() ==> better(v.side, px, (#[trigger] v.queue[i]).px),
{
    lemma_first_where(v.queue, worse_than(v.side, px));
    let k = v.back_slot(px);
    assert forall|i: int| k <= i < v.queue.len() implies better(
        v.side,
        px,
        (#[trigger] v.queue[i]).px,
    ) by {
        assert(better(v.side, px, v.queue[k].px));
        if k < i {
            assert(!better(v.side, v.queue[i].px, v.queue[k].px));
        }
    }
}

/// A returning order goes between the orders priced better than it and
/// the orders priced as it is or worse.
pub proof fn lemma_front_slot(v: PriceLevelsView, px: int)
    requires
        sorted(v.side, v.queue),
    ensures
        0 <= v.front_slot(px) <= v.queue.len(),
        forall|i: int| 0 <= i < v.front_slot(px) ==> better(v.side, (#[trigger] v.queue[i]).px, px),
        forall|i: int|
            v.front_slot(px) <= i < v.queue.len() ==> !better(
                v.side,
                (#[trigger] v.queue[i]).px,
                px,
            ),
{
    lemma_first_where(v.queue, not_better_than(v.side, px));
    let k = v.front_slot(px);
    assert forall|i: int| k <= i < v.queue.len() implies !better(
        v.side,
        (#[trigger] v.queue[i]).px,
        px,
    ) by {
        assert(!better(v.side, v.queue[k].px, px));
        if k < i {
            assert(!better(v.side, v.queue[i].px, v.queue[k].px));
        }
    }
}

/// A queue with one more order in it, between the orders priced at
/// least as well and the orders priced at most as well, is in price
/// order.
pub proof fn lemma_insert_sorted(side: Side, queue: Seq<OrderView>, k: int, order: OrderView)
    requires
        sorted(side, queue),
        0 <= k <= queue.len(),
        forall|i: int| 0 <= i < k ==> !better(side, order.px, (#[trigger] queue[i]).px),
        forall|i: int| k <= i < queue.len() ==> !better(side, (#[trigger] queue[i]).px, order.px),
    ensures
        sorted(side, queue.insert(k, order)),
{
    let after = queue.insert(k, order);
    assert forall|i: int, j: int| 0 <= i < j < after.len() implies !better(
        side,
        after[j].px,
        after[i].px,
    ) by {
        if i < k && j > k {
            assert(after[i] == queue[i] && after[j] == queue[j - 1]);
        } else if i < k && j < k {
            assert(after[i] == queue[i] && after[j] == queue[j]);
        } else if i > k {
            assert(after[i] == queue[i - 1] && after[j] == queue[j - 1]);
        } else if i == k {
            assert(after[j] == queue[j - 1]);
        } else {
            assert(after[i] == queue[i]);
        }
    }
}

/// An arriving order keeps the price order, joins the tail of its own
/// price and leaves the other prices as they were.
pub proof fn lemma_push(v: PriceLevelsView, order: OrderView)
    requires
        sorted(v.side, v.queue),
    ensures
        sorted(v.side, v.push(order).queue),
        v.push(order).level(order.px) == v.level(order.px).push(order),
        forall|px: int| px != order.px ==> v.push(order).level(px) == #[trigger] v.level(px),
{
    lemma_back_slot(v, order.px);
    let k = v.back_slot(order.px);
    lemma_insert_sorted(v.side, v.queue, k, order);
    let head = v.queue.take(k);
    let tail = v.queue.skip(k);
    lemma_filter_insert(v.queue, k, order, at_price(order.px));
    lemma_filter_split(v.queue, k, at_price(order.px));
    assert forall|i: int| 0 <= i < tail.len() implies !at_price(order.px)(#[trigger] tail[i]) by {
        assert(tail[i] == v.queue[k + i]);
    }
    lemma_filter_none(tail, at_price(order.px));
    assert(v.push(order).level(order.px) =~= v.level(order.px).push(order));
    assert forall|px: int| px != order.px implies v.push(order).level(px) == #[trigger] v.level(
        px,
    ) by {
        lemma_filter_insert(v.queue, k, order, at_price(px));
        lemma_filter_split(v.queue, k, at_price(px));
        assert(v.push(order).level(px) =~= v.level(px));
    }
}

/// A returning order keeps the price order, joins the head of its own
/// price and leaves the other prices as they were.
pub proof fn lemma_push_front(v: PriceLevelsView, order: OrderView)
    requires
        sorted(v.side, v.queue),
    ensures
        sorted(v.side, v.push_front(order).queue),
        v.push_front(order).level(order.px) == seq![order] + v.level(order.px),
        forall|px: int| px != order.px ==> v.push_front(order).level(px) == #[trigger] v.level(px),
{
    lemma_front_slot(v, order.px);
    let k = v.front_slot(order.px);
    lemma_insert_sorted(v.side, v.queue, k, order);
    let head = v.queue.take(k);
    lemma_filter_insert(v.queue, k, order, at_price(order.px));
    lemma_filter_split(v.queue, k, at_price(order.px));
    assert forall|i: int| 0 <= i < head.len() implies !at_price(order.px)(#[trigger] head[i]) by {
        assert(head[i] == v.queue[i]);
    }
    lemma_filter_none(head, at_price(order.px));
    assert(v.push_front(order).level(order.px) =~= seq![order] + v.level(order.px));
    assert forall|px: int| px != order.px implies v.push_front(order).level(px)
        == #[trigger] v.level(px) by {
        lemma_filter_insert(v.queue, k, order, at_price(px));
        lemma_filter_split(v.queue, k, at_price(px));
        assert(v.push_front(order).level(px) =~= v.level(px));
    }
}

/// The orders at the best price are the head of the queue.
pub proof fn lemma_best_level(v: PriceLevelsView)
    requires
        sorted(v.side, v.queue),
        v.queue.len() > 0,
    ensures
        0 < v.best_level_size() <= v.queue.len(),
        v.level(v.queue[0].px) == v.queue.take(v.best_level_size() as int),
        forall|i: int|
            v.best_level_size() <= i < v.queue.len() ==> better(
                v.side,
                v.queue[0].px,
                (#[trigger] v.queue[i]).px,
            ),
{
    let px = v.queue[0].px;
    let n = first_where(v.queue, off_price(px));
    lemma_first_where(v.queue, off_price(px));
    let head = v.queue.take(n);
    let tail = v.queue.skip(n);
    assert forall|i: int| n <= i < v.queue.len() implies better(
        v.side,
        px,
        (#[trigger] v.queue[i]).px,
    ) by {
        assert(!better(v.side, v.queue[n].px, v.queue[0].px));
        if n < i {
            assert(!better(v.side, v.queue[i].px, v.queue[n].px));
        }
    }
    assert forall|i: int| 0 <= i < head.len() implies at_price(px)(#[trigger] head[i]) by {
        assert(head[i] == v.queue[i]);
    }
    assert forall|i: int| 0 <= i < tail.len() implies !at_price(px)(#[trigger] tail[i]) by {
        assert(tail[i] == v.queue[n + i]);
    }
    lemma_filter_split(v.queue, n, at_price(px));
    lemma_filter_all(head, at_price(px));
    lemma_filter_none(tail, at_price(px));
    assert(v.level(px) =~= head);
}

/// Cutting orders off the head of the best price keeps the price order,
/// cuts them off that price and leaves the other prices as they were.
pub proof fn lemma_drop_head(v: PriceLevelsView, m: int)
    requires
        sorted(v.side, v.queue),
        0 <= m <= v.best_level_size(),
    ensures
        sorted(v.side, v.queue.skip(m)),
        v.queue.len() > 0 ==> v.queue.skip(m).filter(at_price(v.queue[0].px)) == v.level(
            v.queue[0].px,
        ).skip(m),
        forall|px: int|
            (v.queue.len() > 0 && px != v.queue[0].px) ==> #[trigger] v.queue.skip(m).filter(
                at_price(px),
            ) == v.level(px),
{
    let rest = v.queue.skip(m);
    assert forall|i: int, j: int| 0 <= i < j < rest.len() implies !better(
        v.side,
        rest[j].px,
        rest[i].px,
    ) by {
        assert(rest[i] == v.queue[m + i] && rest[j] == v.queue[m + j]);
    }
    if v.queue.len() > 0 {
        lemma_best_level(v);
        let best = v.queue[0].px;
        let n = v.best_level_size() as int;
        let head = v.queue.take(m);
        assert forall|i: int| 0 <= i < m implies (#[trigger] v.queue[i]).px == best by {
            assert(v.queue.take(n)[i] == v.queue[i]);
            lemma_filter_member(v.queue, at_price(best), i);
        }
        assert forall|px: int| px != best implies #[trigger] rest.filter(at_price(px)) == v.level(
            px,
        ) by {
            lemma_filter_split(v.queue, m, at_price(px));
            assert forall|i: int| 0 <= i < head.len() implies !at_price(px)(#[trigger] head[i]) by {
                assert(head[i] == v.queue[i]);
            }
            lemma_filter_none(head, at_price(px));
            assert(head.filter(at_price(px)) + rest.filter(at_price(px)) =~= rest.filter(
                at_price(px),
            ));
        }
        lemma_filter_split(v.queue, m, at_price(best));
        assert forall|i: int| 0 <= i < head.len() implies at_price(best)(#[trigger] head[i]) by {
            assert(head[i] == v.queue[i]);
        }
        lemma_filter_all(head, at_price(best));
        assert(rest.filter(at_price(best)) =~= v.level(best).skip(m)) by {
            let kept = rest.filter(at_price(best));
            assert(v.level(best) == head + kept);
            assert((head + kept).skip(m) =~= kept);
        }
    }
}

/// Cutting the head off the queue leaves a valid side.
pub proof fn lemma_without_head_wf(v: PriceLevelsView, n: int)
    requires
        v.wf(),
        0 <= n <= v.queue.len(),
    ensures
        v.without_head(n).wf(),
{
    let after = v.without_head(n);
    assert forall|i: int, j: int| 0 <= i < j < after.queue.len() implies !better(
        v.side,
        after.queue[j].px,
        after.queue[i].px,
    ) by {
        assert(after.queue[i] == v.queue[n + i] && after.queue[j] == v.queue[n + j]);
    }
}

/// Serving the best order leaves a valid side.
pub proof fn lemma_pop_best_wf(v: PriceLevelsView)
    requires
        v.wf(),
    ensures
        v.pop_best().after.wf(),
{
    lemma_first_where(v.queue, live_in(v.canceled));
    let i = v.first_live();
    if i < v.queue.len() {
        lemma_without_head_wf(v, i + 1);
    } else {
        lemma_without_head_wf(v, v.queue.len() as int);
    }
}

/// Removing the orders of one id leaves a valid side.
pub proof fn lemma_eager_remove_wf(v: PriceLevelsView, id: u128)
    requires
        v.wf(),
    ensures
        v.eager_remove(id).after.wf(),
{
    lemma_filter_sorted(v.side, v.queue, other_than(id));
}

/// An order rests under an id exactly where the number of resting
/// orders under that id is not 0.
pub proof fn lemma_holds_is_copies(v: PriceLevelsView, id: u128)
    ensures
        v.holds(id) <==> v.copies(id) > 0,
{
    if v.holds(id) {
        let i = choose|i: int| 0 <= i < v.queue.len() && (#[trigger] v.queue[i]).id == id;
        lemma_filter_keeps(v.queue, carrying(id), i);
    }
    if v.copies(id) > 0 {
        lemma_filter_member(v.queue, carrying(id), 0);
        let i = choose|i: int|
            0 <= i < v.queue.len() && #[trigger] v.queue[i] == v.queue.filter(carrying(id))[0];
        assert(v.queue[i].id == id);
    }
}

/// The number of orders that a filter keeps of a queue with one more
/// order in it.
pub proof fn lemma_filter_insert_len(
    queue: Seq<OrderView>,
    k: int,
    order: OrderView,
    f: spec_fn(OrderView) -> bool,
)
    requires
        0 <= k <= queue.len(),
    ensures
        queue.insert(k, order).filter(f).len() == queue.filter(f).len() + if f(order) {
            1int
        } else {
            0int
        },
{
    lemma_filter_insert(queue, k, order, f);
    lemma_filter_split(queue, k, f);
}

/// The number of orders that a filter keeps of a queue without its first
/// order.
pub proof fn lemma_filter_behead_len(queue: Seq<OrderView>, f: spec_fn(OrderView) -> bool)
    requires
        queue.len() > 0,
    ensures
        queue.filter(f).len() == queue.skip(1).filter(f).len() + if f(queue[0]) {
            1int
        } else {
            0int
        },
{
    reveal(Seq::filter);
    lemma_filter_split(queue, 1, f);
    let one = queue.take(1);
    assert(one.drop_last() =~= Seq::<OrderView>::empty());
    assert(one.drop_last().filter(f) =~= Seq::<OrderView>::empty());
    assert(one.last() == queue[0]);
    assert(one.filter(f) =~= if f(queue[0]) {
        one
    } else {
        Seq::empty()
    });
}

/// The orders of one id that are left when the orders of an id are
/// removed: none of that id, and all of any other.
pub proof fn lemma_copies_without(queue: Seq<OrderView>, gone: u128, id: u128)
    ensures
        queue.filter(other_than(gone)).filter(carrying(id)).len() == if id == gone {
            0
        } else {
            queue.filter(carrying(id)).len()
        },
{
    let kept = queue.filter(other_than(gone));
    if id == gone {
        assert forall|i: int| 0 <= i < kept.len() implies !carrying(id)(#[trigger] kept[i]) by {
            lemma_filter_member(queue, other_than(gone), i);
        }
        lemma_filter_none(kept, carrying(id));
    } else {
        lemma_filter_commute(queue, other_than(gone), carrying(id));
        let same = queue.filter(carrying(id));
        assert forall|i: int| 0 <= i < same.len() implies other_than(gone)(#[trigger] same[i]) by {
            lemma_filter_member(queue, carrying(id), i);
        }
        lemma_filter_all(same, other_than(gone));
    }
}

/// The length of a queue is the number of its orders at one price and
/// the number of its orders at all the others.
pub proof fn lemma_len_by_price(queue: Seq<OrderView>, px: int)
    ensures
        queue.len() == queue.filter(at_price(px)).len() + queue.filter(off_price(px)).len(),
    decreases queue.len(),
{
    reveal(Seq::filter);
    if queue.len() > 0 {
        lemma_len_by_price(queue.drop_last(), px);
    }
}

/// A queue whose prices are among `prices`, with no more than `bound`
/// orders at each of them, holds no more than `bound` orders for each
/// price.
pub proof fn lemma_len_bound(queue: Seq<OrderView>, prices: Set<i64>, bound: nat)
    requires
        prices.finite(),
        forall|i: int|
            0 <= i < queue.len() ==> (#[trigger] queue[i]).in_range() && prices.contains(
                queue[i].px as i64,
            ),
        forall|px: i64|
            #[trigger] prices.contains(px) ==> queue.filter(at_price(px as int)).len() <= bound,
    ensures
        queue.len() <= prices.len() * bound,
    decreases prices.len(),
{
    if queue.len() > 0 {
        let px = queue[0].px as i64;
        let at = at_price(px as int);
        let off = off_price(px as int);
        let rest = queue.filter(off);
        let others = prices.remove(px);
        assert(prices.contains(px));
        lemma_len_by_price(queue, px as int);
        assert forall|i: int| 0 <= i < rest.len() implies (#[trigger] rest[i]).in_range()
            && others.contains(rest[i].px as i64) by {
            lemma_filter_member(queue, off, i);
            let m = choose|m: int| 0 <= m < queue.len() && #[trigger] queue[m] == rest[i];
            assert(queue[m].in_range());
        }
        assert forall|other: i64| #[trigger] others.contains(other) implies rest.filter(
            at_price(other as int),
        ).len() <= bound by {
            lemma_filter_commute(queue, off, at_price(other as int));
            queue.filter(at_price(other as int)).lemma_filter_len(off);
            assert(prices.contains(other));
        }
        lemma_len_bound(rest, others, bound);
        assert(queue.len() <= prices.len() * bound) by (nonlinear_arith)
            requires
                queue.len() <= bound + rest.len(),
                rest.len() <= (prices.len() - 1) * bound,
                prices.len() >= 1,
        ;
    }
}

/// Whether the prices of `prices` go from better to strictly worse.
pub open spec fn descending(side: Side, prices: Seq<int>) -> bool {
    forall|i: int, j: int| 0 <= i < j < prices.len() ==> better(side, prices[i], prices[j])
}

/// The ladder of a queue in price order holds the prices at which an
/// order rests, each once, from the best to the worst, and it ends with
/// the price of the last order.
pub proof fn lemma_ladder(side: Side, queue: Seq<OrderView>)
    requires
        sorted(side, queue),
    ensures
        descending(side, ladder_of(queue)),
        forall|px: int|
            ladder_of(queue).contains(px) <==> exists|i: int|
                0 <= i < queue.len() && (#[trigger] queue[i]).px == px,
        queue.len() > 0 ==> ladder_of(queue).len() > 0 && ladder_of(queue).last()
            == queue.last().px,
    decreases queue.len(),
{
    if queue.len() > 0 {
        let head = queue.drop_last();
        let last = queue.last().px;
        let before = ladder_of(head);
        let ladder = ladder_of(queue);
        assert(sorted(side, head)) by {
            assert forall|i: int, j: int| 0 <= i < j < head.len() implies !better(
                side,
                head[j].px,
                head[i].px,
            ) by {
                assert(head[i] == queue[i] && head[j] == queue[j]);
            }
        }
        lemma_ladder(side, head);
        assert forall|t: int| 0 <= t < before.len() implies !better(side, last, before[t]) by {
            assert(before.contains(before[t]));
            let i = choose|i: int| 0 <= i < head.len() && (#[trigger] head[i]).px == before[t];
            assert(head[i] == queue[i]);
            assert(!better(side, queue[queue.len() - 1].px, queue[i].px));
        }
        if before.len() > 0 && before.last() == last {
            assert forall|px: int|
                ladder.contains(px) <==> exists|i: int|
                    0 <= i < queue.len() && (#[trigger] queue[i]).px == px by {
                if ladder.contains(px) {
                    let i = choose|i: int| 0 <= i < head.len() && (#[trigger] head[i]).px == px;
                    assert(queue[i].px == px);
                }
                if exists|i: int| 0 <= i < queue.len() && (#[trigger] queue[i]).px == px {
                    let i = choose|i: int| 0 <= i < queue.len() && (#[trigger] queue[i]).px == px;
                    if i < head.len() {
                        assert(head[i].px == px);
                        assert(before.contains(px));
                    } else {
                        assert(before[before.len() - 1] == px);
                    }
                }
            }
        } else {
            assert forall|i: int, j: int| 0 <= i < j < ladder.len() implies better(
                side,
                ladder[i],
                ladder[j],
            ) by {
                if j == before.len() {
                    assert(!better(side, last, before[i]));
                    if before[i] == last {
                        assert(head[head.len() - 1] == queue[queue.len() - 2]);
                        assert(!better(side, last, before.last()));
                        if i < before.len() - 1 {
                            assert(better(side, before[i], before[before.len() - 1]));
                        }
                    }
                }
            }
            assert forall|px: int|
                ladder.contains(px) <==> exists|i: int|
                    0 <= i < queue.len() && (#[trigger] queue[i]).px == px by {
                if ladder.contains(px) {
                    let t = choose|t: int| 0 <= t < ladder.len() && ladder[t] == px;
                    if t < before.len() {
                        assert(before.contains(before[t]));
                        let i = choose|i: int| 0 <= i < head.len() && (#[trigger] head[i]).px == px;
                        assert(queue[i].px == px);
                    } else {
                        assert(queue[queue.len() - 1].px == px);
                    }
                }
                if exists|i: int| 0 <= i < queue.len() && (#[trigger] queue[i]).px == px {
                    let i = choose|i: int| 0 <= i < queue.len() && (#[trigger] queue[i]).px == px;
                    if i < head.len() {
                        assert(head[i].px == px);
                        assert(before.contains(px));
                        let t = choose|t: int| 0 <= t < before.len() && before[t] == px;
                        assert(ladder[t] == px);
                    } else {
                        assert(ladder[ladder.len() - 1] == px);
                    }
                }
            }
        }
    }
}

/// Two lists of the same prices, each from better to strictly worse, are
/// the same list.
pub proof fn lemma_descending_unique(side: Side, a: Seq<int>, b: Seq<int>)
    requires
        descending(side, a),
        descending(side, b),
        forall|px: int| a.contains(px) <==> b.contains(px),
    ensures
        a == b,
    decreases a.len(),
{
    if a.len() == 0 {
        if b.len() > 0 {
            assert(b.contains(b[0]));
        }
        assert(a =~= b);
    } else {
        assert(a.contains(a[0]));
        let j = choose|j: int| 0 <= j < b.len() && b[j] == a[0];
        assert(b.contains(b[0]));
        let i = choose|i: int| 0 <= i < a.len() && a[i] == b[0];
        if i > 0 {
            assert(better(side, a[0], a[i]));
        }
        if j > 0 {
            assert(better(side, b[0], b[j]));
        }
        assert(a[0] == b[0]);
        let ra = a.skip(1);
        let rb = b.skip(1);
        assert forall|px: int| ra.contains(px) <==> rb.contains(px) by {
            if ra.contains(px) {
                let t = choose|t: int| 0 <= t < ra.len() && ra[t] == px;
                assert(a[t + 1] == px);
                assert(better(side, a[0], a[t + 1]));
                assert(a.contains(px));
                let u = choose|u: int| 0 <= u < b.len() && b[u] == px;
                assert(rb[u - 1] == px);
            }
            if rb.contains(px) {
                let t = choose|t: int| 0 <= t < rb.len() && rb[t] == px;
                assert(b[t + 1] == px);
                assert(better(side, b[0], b[t + 1]));
                assert(b.contains(px));
                let u = choose|u: int| 0 <= u < a.len() && a[u] == px;
                assert(ra[u - 1] == px);
            }
        }
        assert(descending(side, ra)) by {
            assert forall|x: int, y: int| 0 <= x < y < ra.len() implies better(
                side,
                ra[x],
                ra[y],
            ) by {
                assert(ra[x] == a[x + 1] && ra[y] == a[y + 1]);
            }
        }
        assert(descending(side, rb)) by {
            assert forall|x: int, y: int| 0 <= x < y < rb.len() implies better(
                side,
                rb[x],
                rb[y],
            ) by {
                assert(rb[x] == b[x + 1] && rb[y] == b[y + 1]);
            }
        }
        lemma_descending_unique(side, ra, rb);
        assert(a =~= seq![a[0]] + ra);
        assert(b =~= seq![b[0]] + rb);
    }
}

/// An order with quantity open that arrives on a valid side where
/// every order has quantity open leaves such a side.
pub proof fn lemma_push_positive(v: PriceLevelsView, order: OrderView)
    requires
        v.wf(),
        all_positive(v.queue),
        order.qty > 0,
    ensures
        v.push(order).wf(),
        all_positive(v.push(order).queue),
{
    lemma_push(v, order);
    lemma_back_slot(v, order.px);
    let at = v.back_slot(order.px);
    let after = v.push(order).queue;
    assert forall|k: int| 0 <= k < after.len() implies (#[trigger] after[k]).qty > 0 by {
        if k < at {
            assert(after[k] == v.queue[k]);
        } else if k > at {
            assert(after[k] == v.queue[k - 1]);
        }
    }
}

/// An order with quantity open that returns to a valid side where every
/// order has quantity open leaves such a side.
pub proof fn lemma_push_front_positive(v: PriceLevelsView, order: OrderView)
    requires
        v.wf(),
        all_positive(v.queue),
        order.qty > 0,
    ensures
        v.push_front(order).wf(),
        all_positive(v.push_front(order).queue),
{
    lemma_push_front(v, order);
    lemma_front_slot(v, order.px);
    let at = v.front_slot(order.px);
    let after = v.push_front(order).queue;
    assert forall|k: int| 0 <= k < after.len() implies (#[trigger] after[k]).qty > 0 by {
        if k < at {
            assert(after[k] == v.queue[k]);
        } else if k > at {
            assert(after[k] == v.queue[k - 1]);
        }
    }
}

/// Serving the best order of a side where every order has quantity open
/// leaves such a side, and the order served has quantity open.
pub proof fn lemma_pop_best_positive(v: PriceLevelsView)
    requires
        all_positive(v.queue),
    ensures
        all_positive(v.pop_best().after.queue),
        v.pop_best().order matches Some(order) ==> order.qty > 0,
{
    lemma_first_where(v.queue, live_in(v.canceled));
    let i = v.first_live();
    let after = v.pop_best().after.queue;
    let cut = if i < v.queue.len() {
        i + 1
    } else {
        v.queue.len() as int
    };
    assert forall|k: int| 0 <= k < after.len() implies (#[trigger] after[k]).qty > 0 by {
        assert(after[k] == v.queue[cut + k]);
    }
}

/// The live orders of a side are the order that `pop_best` returns and
/// the live orders that it leaves.
pub proof fn lemma_live_after_pop(v: PriceLevelsView)
    ensures
        match v.pop_best().order {
            Some(order) => v.live() == seq![order] + v.pop_best().after.live(),
            None => v.live().len() == 0 && v.pop_best().after.live().len() == 0,
        },
{
    let live = live_in(v.canceled);
    lemma_first_where(v.queue, live);
    let i = v.first_live();
    let head = v.queue.take(i);
    lemma_filter_split(v.queue, i, live);
    assert forall|k: int| 0 <= k < head.len() implies !live(#[trigger] head[k]) by {
        assert(head[k] == v.queue[k]);
    }
    lemma_filter_none(head, live);
    if i < v.queue.len() {
        let rest = v.queue.skip(i + 1);
        let from = v.queue.skip(i);
        lemma_filter_split(from, 1, live);
        assert(from.take(1) =~= seq![v.queue[i]]);
        assert(from.skip(1) =~= rest);
        assert(seq![v.queue[i]].filter(live) =~= seq![v.queue[i]]) by {
            reveal(Seq::filter);
            assert(seq![v.queue[i]].drop_last() =~= Seq::<OrderView>::empty());
        }
        assert(v.live() =~= seq![v.queue[i]] + rest.filter(live));
    } else {
        assert(v.queue.skip(i) =~= Seq::<OrderView>::empty());
        assert(v.live() =~= Seq::<OrderView>::empty()) by {
            reveal(Seq::filter);
        }
        assert(v.pop_best().after.queue =~= Seq::<OrderView>::empty());
        assert(v.pop_best().after.live() =~= Seq::<OrderView>::empty()) by {
            reveal(Seq::filter);
        }
    }
}

} // verus!
