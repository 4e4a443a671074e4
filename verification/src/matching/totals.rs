//! What the orders of some levels add up to.

use vstd::prelude::*;
use super::levels;
use super::levels::LevelView;
use super::order::{Order, Side};

verus! {

/// Something of each of some orders, added up.
pub open spec fn orders_total(orders: Seq<Order>, w: spec_fn(Order) -> int) -> int
    decreases orders.len(),
{
    if orders.len() == 0 {
        0
    } else {
        orders_total(orders.drop_last(), w) + w(orders.last())
    }
}

/// Something of each order of some levels, added up.
pub open spec fn levels_total(side: Seq<LevelView>, w: spec_fn(Order) -> int) -> int
    decreases side.len(),
{
    if side.len() == 0 {
        0
    } else {
        levels_total(side.drop_last(), w) + orders_total(side.last().orders, w)
    }
}

/// The levels that an order may trade with.
pub open spec fn reachable(
    resting: Side,
    side: Seq<LevelView>,
    limit: Option<u64>,
) -> Seq<LevelView> {
    side.filter(|l: LevelView| levels::within(resting, limit, l.key))
}

/// It does not matter from which end one counts.
pub proof fn lemma_orders_total_front(orders: Seq<Order>, w: spec_fn(Order) -> int)
    requires
        orders.len() > 0,
    ensures
        orders_total(orders, w) == w(orders[0]) + orders_total(orders.drop_first(), w),
    decreases orders.len(),
{
    if orders.len() == 1 {
        assert(orders.drop_last() =~= orders.drop_first());
    } else {
        lemma_orders_total_front(orders.drop_last(), w);
        assert(orders.drop_last().drop_first() =~= orders.drop_first().drop_last());
    }
}

/// It does not matter from which end one counts.
pub proof fn lemma_levels_total_front(side: Seq<LevelView>, w: spec_fn(Order) -> int)
    requires
        side.len() > 0,
    ensures
        levels_total(side, w) == orders_total(side[0].orders, w) + levels_total(
            side.drop_first(),
            w,
        ),
    decreases side.len(),
{
    if side.len() == 1 {
        assert(side.drop_last() =~= side.drop_first());
    } else {
        lemma_levels_total_front(side.drop_last(), w);
        assert(side.drop_last().drop_first() =~= side.drop_first().drop_last());
    }
}

/// The order of the levels does not matter.
pub proof fn lemma_total_reversed(side: Seq<LevelView>, w: spec_fn(Order) -> int)
    ensures
        levels_total(side.reverse(), w) == levels_total(side, w),
    decreases side.len(),
{
    if side.len() > 0 {
        lemma_levels_total_front(side, w);
        lemma_total_reversed(side.drop_first(), w);
        assert(side.reverse().drop_last() =~= side.drop_first().reverse());
    }
}

/// The first level counts exactly if it is kept.
pub proof fn lemma_filtered_total_front(
    side: Seq<LevelView>,
    p: spec_fn(LevelView) -> bool,
    w: spec_fn(Order) -> int,
)
    requires
        side.len() > 0,
    ensures
        levels_total(side.filter(p), w) == levels_total(side.drop_first().filter(p), w) + if p(
            side[0],
        ) {
            orders_total(side[0].orders, w)
        } else {
            0
        },
    decreases side.len(),
{
    reveal(Seq::filter);
    let front = side.drop_last();
    let last = side.last();
    assert(front.filter(p).push(last).drop_last() =~= front.filter(p));
    if side.len() == 1 {
        assert(front =~= side.drop_first());
        assert(front.filter(p) =~= Seq::<LevelView>::empty());
    } else {
        lemma_filtered_total_front(front, p, w);
        let tail = side.drop_first();
        assert(front.drop_first() =~= tail.drop_last());
        assert(tail.drop_last().filter(p).push(last).drop_last() =~= tail.drop_last().filter(p));
    }
}

} // verus!
