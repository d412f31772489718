//! The order book: two side books (price-indexed FIFO queues of order ids)
//! and an order index (id to full record), moved in lockstep by the book.
//!
//! The side books hold ids only; the index is authoritative for order
//! contents.  `Book::wf` states the cross-structure invariants: every id in
//! a side book is in the index with the matching price and side and
//! vice-versa, no price level is empty, ids are unique, resting orders are
//! open, and the per-side counts of the two structures agree.

use vstd::prelude::*;

use crate::order::{
    key_of, remove_all, LimitOrder, OrderIndex, PriceTimePriorityOrderQueue, Side,
};

verus! {

/// The FIFO queue of order ids resting at one price on one side; the head
/// of the queue (index 0) is the earliest arrival.
#[derive(Debug)]
pub struct Level {
    pub price: u64,
    pub ids: Vec<u64>,
}

/// Whether price `a` has strictly better priority than price `b` on `side`:
/// lower asks and higher bids trade first.
pub open spec fn price_before(side: Side, a: u64, b: u64) -> bool {
    match side {
        Side::Ask => a < b,
        Side::Bid => a > b,
    }
}

/// Whether some level rests at `price`.
pub open spec fn has_level(levels: Seq<Level>, price: u64) -> bool {
    exists|i: int| 0 <= i < levels.len() && levels[i].price == price
}

/// The position of the level at `price` (meaningful when `has_level`
/// holds and prices are unique).
pub open spec fn level_index(levels: Seq<Level>, price: u64) -> int {
    choose|i: int| 0 <= i < levels.len() && levels[i].price == price
}

/// The FIFO of ids resting at `price`, or the empty sequence if no level
/// rests there.
pub open spec fn ids_at(levels: Seq<Level>, price: u64) -> Seq<u64> {
    if has_level(levels, price) {
        levels[level_index(levels, price)].ids@
    } else {
        Seq::empty()
    }
}

/// Whether `id` rests in any level.
pub open spec fn side_contains(levels: Seq<Level>, id: u64) -> bool {
    exists|i: int| 0 <= i < levels.len() && levels[i].ids@.contains(id)
}

/// All resting ids in priority order: best level first, FIFO within each
/// level.
pub open spec fn flat_ids(levels: Seq<Level>) -> Seq<u64>
    decreases levels.len(),
{
    if levels.len() == 0 {
        Seq::empty()
    } else {
        levels[0].ids@ + flat_ids(levels.drop_first())
    }
}

/// `flat_ids` splits at any position.
pub proof fn lemma_flat_ids_split(levels: Seq<Level>, i: int)
    requires
        0 <= i <= levels.len(),
    ensures
        flat_ids(levels) == flat_ids(levels.take(i)) + flat_ids(levels.skip(i)),
    decreases i,
{
    if i == 0 {
        assert(levels.take(0) =~= Seq::<Level>::empty());
        assert(levels.skip(0) =~= levels);
        assert(flat_ids(levels.take(0)) + flat_ids(levels) =~= flat_ids(levels));
    } else {
        lemma_flat_ids_split(levels.drop_first(), i - 1);
        assert(levels.take(i).drop_first() =~= levels.drop_first().take(i - 1));
        assert(levels.drop_first().skip(i - 1) =~= levels.skip(i));
        assert(flat_ids(levels.take(i)) == levels[0].ids@ + flat_ids(
            levels.drop_first().take(i - 1),
        ));
        assert(levels[0].ids@ + (flat_ids(levels.drop_first().take(i - 1)) + flat_ids(
            levels.skip(i),
        )) =~= (levels[0].ids@ + flat_ids(levels.drop_first().take(i - 1))) + flat_ids(
            levels.skip(i),
        ));
    }
}

/// One loop step of flattening: the next level's FIFO is appended whole.
pub proof fn lemma_flat_ids_take_step(levels: Seq<Level>, i: int)
    requires
        0 <= i < levels.len(),
    ensures
        flat_ids(levels.take(i + 1)) == flat_ids(levels.take(i)) + levels[i].ids@,
{
    let t = levels.take(i + 1);
    lemma_flat_ids_split(t, i);
    assert(t.take(i) =~= levels.take(i));
    assert(t.skip(i).len() == 1);
    assert(t.skip(i)[0] == levels[i]);
    assert(t.skip(i).drop_first() =~= Seq::<Level>::empty());
    assert(flat_ids(Seq::<Level>::empty()) == Seq::<u64>::empty());
    assert(flat_ids(t.skip(i)) == levels[i].ids@ + Seq::<u64>::empty());
    assert(levels[i].ids@ + Seq::<u64>::empty() =~= levels[i].ids@);
}

/// An id stands in the flattened listing exactly when some level queues it.
pub proof fn lemma_flat_ids_membership(levels: Seq<Level>)
    ensures
        forall|x: u64|
            #[trigger] flat_ids(levels).contains(x) <==> exists|i: int|
                0 <= i < levels.len() && (#[trigger] levels[i]).ids@.contains(x),
    decreases levels.len(),
{
    if levels.len() > 0 {
        lemma_flat_ids_membership(levels.drop_first());
        assert forall|x: u64| #[trigger]
            flat_ids(levels).contains(x) <==> exists|i: int|
                0 <= i < levels.len() && (#[trigger] levels[i]).ids@.contains(x) by {
            let f = flat_ids(levels);
            let head = levels[0].ids@;
            let rest = flat_ids(levels.drop_first());
            if f.contains(x) {
                let w = choose|w: int| 0 <= w < f.len() && f[w] == x;
                if w < head.len() {
                    assert(levels[0].ids@.contains(x));
                } else {
                    assert(rest[w - head.len()] == x);
                    assert(rest.contains(x));
                    let i = choose|i: int|
                        0 <= i < levels.drop_first().len() && (
                        #[trigger] levels.drop_first()[i]).ids@.contains(x);
                    assert(levels[i + 1].ids@.contains(x));
                }
            }
            if exists|i: int| 0 <= i < levels.len() && (#[trigger] levels[i]).ids@.contains(x) {
                let i = choose|i: int|
                    0 <= i < levels.len() && (#[trigger] levels[i]).ids@.contains(x);
                if i == 0 {
                    let j = choose|j: int| 0 <= j < head.len() && head[j] == x;
                    assert(f[j] == x);
                } else {
                    assert(levels.drop_first()[i - 1].ids@.contains(x));
                    assert(rest.contains(x));
                    let w = choose|w: int| 0 <= w < rest.len() && rest[w] == x;
                    assert(f[w + head.len()] == x);
                }
            }
        }
    }
}

/// The total number of resting ids, over all levels.
pub open spec fn total_ids(levels: Seq<Level>) -> int
    decreases levels.len(),
{
    if levels.len() == 0 {
        0
    } else {
        levels[0].ids@.len() + total_ids(levels.drop_first())
    }
}

/// `total_ids` splits at any position.
pub proof fn lemma_total_ids_split(levels: Seq<Level>, i: int)
    requires
        0 <= i <= levels.len(),
    ensures
        total_ids(levels) == total_ids(levels.take(i)) + total_ids(levels.skip(i)),
    decreases i,
{
    if i == 0 {
        assert(levels.take(0) =~= Seq::<Level>::empty());
        assert(levels.skip(0) =~= levels);
    } else {
        lemma_total_ids_split(levels.drop_first(), i - 1);
        assert(levels.take(i).drop_first() =~= levels.drop_first().take(i - 1));
        assert(levels.drop_first().skip(i - 1) =~= levels.skip(i));
        assert(total_ids(levels.take(i)) == levels[0].ids@.len() + total_ids(
            levels.drop_first().take(i - 1),
        ));
    }
}

/// `total_ids` of a singleton tail, unfolded once.
pub proof fn lemma_total_ids_skip_unfold(levels: Seq<Level>, i: int)
    requires
        0 <= i < levels.len(),
    ensures
        total_ids(levels.skip(i)) == levels[i].ids@.len() + total_ids(levels.skip(i + 1)),
{
    assert(levels.skip(i).len() > 0);
    assert(levels.skip(i)[0] == levels[i]);
    assert(levels.skip(i).drop_first() =~= levels.skip(i + 1));
}

/// A side book: the levels of one side, ordered by priority, so the level
/// at index 0 is the top of the book for that side.
#[derive(Debug)]
pub struct SideBook {
    pub side: Side,
    pub levels: Vec<Level>,
}

impl SideBook {
    /// Well-formedness: no level is empty, levels are strictly ordered by
    /// price priority (so prices are unique), and within a level each id
    /// appears once.
    pub open spec fn wf(self) -> bool {
        &&& forall|i: int|
            0 <= i < self.levels@.len() ==> (#[trigger] self.levels@[i]).ids@.len() > 0
        &&& forall|i: int, j: int|
            0 <= i < j < self.levels@.len() ==> #[trigger] price_before(
                self.side,
                self.levels@[i].price,
                self.levels@[j].price,
            )
        &&& forall|i: int, a: int, b: int|
            0 <= i < self.levels@.len() && 0 <= a < b < self.levels@[i].ids@.len()
                ==> #[trigger] self.levels@[i].ids@[a] != #[trigger] self.levels@[i].ids@[b]
    }

    /// Whether the side is empty.
    pub open spec fn spec_is_empty(self) -> bool {
        self.levels@.len() == 0
    }

    /// The best price on this side (only meaningful when non-empty).
    pub open spec fn spec_top_price(self) -> u64 {
        self.levels@[0].price
    }

    /// The id at the priority head of this side (only meaningful when
    /// non-empty).
    pub open spec fn spec_top_id(self) -> u64 {
        self.levels@[0].ids@[0]
    }
}

/// In a sorted side book the level at a given price is unique, so `ids_at`
/// is exactly that level's queue.
pub proof fn lemma_level_at(sb: SideBook, i: int)
    requires
        sb.wf(),
        0 <= i < sb.levels@.len(),
    ensures
        has_level(sb.levels@, sb.levels@[i].price),
        level_index(sb.levels@, sb.levels@[i].price) == i,
        ids_at(sb.levels@, sb.levels@[i].price) == sb.levels@[i].ids@,
{
    let p = sb.levels@[i].price;
    assert(has_level(sb.levels@, p));
    let j = level_index(sb.levels@, p);
    assert(0 <= j < sb.levels@.len() && sb.levels@[j].price == p);
    if j < i {
        assert(price_before(sb.side, sb.levels@[j].price, sb.levels@[i].price));
        assert(false);
    }
    if i < j {
        assert(price_before(sb.side, sb.levels@[i].price, sb.levels@[j].price));
        assert(false);
    }
}

/// An id rests in a side book exactly when it rests at some price.
pub proof fn lemma_side_contains_ids_at(sb: SideBook, id: u64)
    requires
        sb.wf(),
    ensures
        side_contains(sb.levels@, id) <==> exists|p: u64| ids_at(sb.levels@, p).contains(id),
{
    if side_contains(sb.levels@, id) {
        let i = choose|i: int| 0 <= i < sb.levels@.len() && sb.levels@[i].ids@.contains(id);
        lemma_level_at(sb, i);
        assert(ids_at(sb.levels@, sb.levels@[i].price).contains(id));
    }
    if exists|p: u64| ids_at(sb.levels@, p).contains(id) {
        let p = choose|p: u64| ids_at(sb.levels@, p).contains(id);
        assert(has_level(sb.levels@, p));
        let i = level_index(sb.levels@, p);
        assert(sb.levels@[i].ids@.contains(id));
        assert(side_contains(sb.levels@, id));
    }
}

/// Every resting price is the top price or worse.
pub proof fn lemma_top_price_best(sb: SideBook, p: u64)
    requires
        sb.wf(),
        ids_at(sb.levels@, p).len() > 0,
    ensures
        !sb.spec_is_empty(),
        p == sb.spec_top_price() || price_before(sb.side, sb.spec_top_price(), p),
{
    assert(has_level(sb.levels@, p));
    let i = level_index(sb.levels@, p);
    assert(0 <= i < sb.levels@.len() && sb.levels@[i].price == p);
    if i > 0 {
        assert(price_before(sb.side, sb.levels@[0].price, sb.levels@[i].price));
    }
}

/// Replacing the queue of one level (price kept, still non-empty and
/// duplicate-free) keeps the side book well formed and changes `ids_at`
/// at that price alone.
pub proof fn lemma_update_level(pre: SideBook, post: SideBook, i: int, newids: Seq<u64>)
    requires
        pre.wf(),
        0 <= i < pre.levels@.len(),
        post.side == pre.side,
        post.levels@.len() == pre.levels@.len(),
        forall|k: int| 0 <= k < pre.levels@.len() && k != i ==> post.levels@[k] == pre.levels@[k],
        post.levels@[i].price == pre.levels@[i].price,
        post.levels@[i].ids@ == newids,
        newids.len() > 0,
        forall|a: int, b: int| 0 <= a < b < newids.len() ==> newids[a] != newids[b],
    ensures
        post.wf(),
        ids_at(post.levels@, pre.levels@[i].price) == newids,
        forall|p: u64|
            p != pre.levels@[i].price ==> #[trigger] ids_at(post.levels@, p) == ids_at(
                pre.levels@,
                p,
            ),
        total_ids(post.levels@) == total_ids(pre.levels@) - pre.levels@[i].ids@.len()
            + newids.len(),
{
    let p0 = pre.levels@[i].price;
    assert forall|a: int, b: int| 0 <= a < b < post.levels@.len() implies #[trigger] price_before(
        post.side,
        post.levels@[a].price,
        post.levels@[b].price,
    ) by {
        assert(post.levels@[a].price == pre.levels@[a].price);
        assert(post.levels@[b].price == pre.levels@[b].price);
        assert(price_before(pre.side, pre.levels@[a].price, pre.levels@[b].price));
    }
    assert(post.wf());
    lemma_level_at(post, i);
    lemma_level_at(pre, i);
    assert forall|p: u64| p != p0 implies #[trigger] ids_at(post.levels@, p) == ids_at(
        pre.levels@,
        p,
    ) by {
        if has_level(pre.levels@, p) {
            let k = level_index(pre.levels@, p);
            assert(k != i);
            assert(post.levels@[k] == pre.levels@[k]);
            lemma_level_at(post, k);
            lemma_level_at(pre, k);
        } else {
            assert forall|k: int| 0 <= k < post.levels@.len() implies post.levels@[k].price
                != p by {
                assert(post.levels@[k].price == pre.levels@[k].price);
            }
            assert(!has_level(post.levels@, p));
        }
    }
    lemma_total_ids_split(pre.levels@, i);
    lemma_total_ids_skip_unfold(pre.levels@, i);
    lemma_total_ids_split(post.levels@, i);
    lemma_total_ids_skip_unfold(post.levels@, i);
    assert(post.levels@.take(i) =~= pre.levels@.take(i));
    assert(post.levels@.skip(i + 1) =~= pre.levels@.skip(i + 1));
}

/// Deleting one whole level keeps the side book well formed, empties
/// `ids_at` at that price, and leaves every other price untouched.
pub proof fn lemma_remove_level(pre: SideBook, post: SideBook, i: int)
    requires
        pre.wf(),
        0 <= i < pre.levels@.len(),
        post.side == pre.side,
        post.levels@ == pre.levels@.remove(i),
    ensures
        post.wf(),
        !has_level(post.levels@, pre.levels@[i].price),
        ids_at(post.levels@, pre.levels@[i].price) == Seq::<u64>::empty(),
        forall|p: u64|
            p != pre.levels@[i].price ==> #[trigger] ids_at(post.levels@, p) == ids_at(
                pre.levels@,
                p,
            ),
        total_ids(post.levels@) == total_ids(pre.levels@) - pre.levels@[i].ids@.len(),
{
    let p0 = pre.levels@[i].price;
    assert forall|k: int| 0 <= k < post.levels@.len() implies post.levels@[k]
        == if k < i { pre.levels@[k] } else { pre.levels@[k + 1] } by {}
    assert forall|a: int, b: int| 0 <= a < b < post.levels@.len() implies #[trigger] price_before(
        post.side,
        post.levels@[a].price,
        post.levels@[b].price,
    ) by {
        let a0 = if a < i { a } else { a + 1 };
        let b0 = if b < i { b } else { b + 1 };
        assert(price_before(pre.side, pre.levels@[a0].price, pre.levels@[b0].price));
    }
    assert forall|k: int| 0 <= k < post.levels@.len() implies (#[trigger] post.levels@[k]).ids@.len()
        > 0 by {
        let k0 = if k < i { k } else { k + 1 };
        assert(pre.levels@[k0].ids@.len() > 0);
    }
    assert(post.wf());
    lemma_level_at(pre, i);
    assert forall|k: int| 0 <= k < post.levels@.len() implies post.levels@[k].price != p0 by {
        let k0 = if k < i { k } else { k + 1 };
        if pre.levels@[k0].price == p0 {
            lemma_level_at(pre, k0);
        }
    }
    assert(!has_level(post.levels@, p0));
    assert forall|p: u64| p != p0 implies #[trigger] ids_at(post.levels@, p) == ids_at(
        pre.levels@,
        p,
    ) by {
        if has_level(pre.levels@, p) {
            let k = level_index(pre.levels@, p);
            assert(k != i);
            let k2 = if k < i { k } else { k - 1 };
            assert(post.levels@[k2] == pre.levels@[k]);
            lemma_level_at(post, k2);
            lemma_level_at(pre, k);
        } else {
            assert forall|k: int| 0 <= k < post.levels@.len() implies post.levels@[k].price
                != p by {
                let k0 = if k < i { k } else { k + 1 };
                assert(pre.levels@[k0].price != p);
            }
            assert(!has_level(post.levels@, p));
        }
    }
    lemma_total_ids_split(pre.levels@, i);
    lemma_total_ids_skip_unfold(pre.levels@, i);
    lemma_total_ids_split(post.levels@, i);
    assert(post.levels@.take(i) =~= pre.levels@.take(i));
    assert(post.levels@.skip(i) =~= pre.levels@.skip(i + 1));
}

impl SideBook {
    /// An empty side book.
    pub fn new(side: Side) -> (r: SideBook)
        ensures
            r.wf(),
            r.side == side,
            r.spec_is_empty(),
            forall|p: u64| ids_at(r.levels@, p) == Seq::<u64>::empty(),
            total_ids(r.levels@) == 0,
            forall|x: u64| !side_contains(r.levels@, x),
    {
        let r = SideBook { side, levels: Vec::new() };
        proof {
            assert(forall|p: u64| !has_level(r.levels@, p));
        }
        r
    }

    /// The id at the priority head of this side, if any: the earliest
    /// arrival at the best price.
    pub fn top(&self) -> (r: Option<u64>)
        requires
            self.wf(),
        ensures
            r == None::<u64> <==> self.spec_is_empty(),
            !self.spec_is_empty() ==> r == Some(self.spec_top_id()) && ids_at(
                self.levels@,
                self.spec_top_price(),
            )[0] == self.spec_top_id(),
    {
        if self.levels.len() == 0 {
            None
        } else {
            proof {
                lemma_level_at(*self, 0);
            }
            Some(self.levels[0].ids[0])
        }
    }

    /// Remove and return the id at the priority head of this side: the
    /// earliest arrival at the best price.  The level is deleted when it
    /// empties, so no dangling level remains.
    pub fn pop_top(&mut self) -> (r: Option<u64>)
        requires
            old(self).wf(),
        ensures
            final(self).wf(),
            final(self).side == old(self).side,
            old(self).spec_is_empty() ==> r == None::<u64> && *final(self) == *old(self),
            !old(self).spec_is_empty() ==> {
                &&& r == Some(old(self).spec_top_id())
                &&& ids_at(final(self).levels@, old(self).spec_top_price()) == ids_at(
                    old(self).levels@,
                    old(self).spec_top_price(),
                ).drop_first()
                &&& forall|p: u64|
                    p != old(self).spec_top_price() ==> #[trigger] ids_at(final(self).levels@, p)
                        == ids_at(old(self).levels@, p)
                &&& total_ids(final(self).levels@) == total_ids(old(self).levels@) - 1
            },
    {
        if self.levels.len() == 0 {
            return None;
        }
        let ghost pre = *self;
        proof {
            lemma_level_at(pre, 0);
        }
        let mut lvl = self.levels.remove(0);
        let id = lvl.ids.remove(0);
        if lvl.ids.len() > 0 {
            self.levels.insert(0, lvl);
            proof {
                assert(self.levels@ =~= pre.levels@.update(0, self.levels@[0]));
                assert(self.levels@[0].ids@ =~= pre.levels@[0].ids@.drop_first());
                assert forall|a: int, b: int|
                    0 <= a < b < self.levels@[0].ids@.len() implies self.levels@[0].ids@[a]
                    != self.levels@[0].ids@[b] by {
                    assert(pre.levels@[0].ids@[a + 1] != pre.levels@[0].ids@[b + 1]);
                }
                lemma_update_level(pre, *self, 0, self.levels@[0].ids@);
            }
        } else {
            proof {
                assert(self.levels@ =~= pre.levels@.remove(0));
                lemma_remove_level(pre, *self, 0);
                assert(pre.levels@[0].ids@.len() == 1);
                assert(ids_at(self.levels@, pre.spec_top_price()) =~= ids_at(
                    pre.levels@,
                    pre.spec_top_price(),
                ).drop_first());
            }
        }
        Some(id)
    }

    /// Remove `order_id` from the FIFO at `price`, deleting the level if it
    /// empties.  Every other level is untouched.
    pub fn remove_specific(&mut self, price: u64, order_id: u64)
        requires
            old(self).wf(),
            ids_at(old(self).levels@, price).contains(order_id),
        ensures
            final(self).wf(),
            final(self).side == old(self).side,
            ids_at(final(self).levels@, price) == ids_at(old(self).levels@, price).remove_value(
                order_id,
            ),
            forall|p: u64|
                p != price ==> #[trigger] ids_at(final(self).levels@, p) == ids_at(
                    old(self).levels@,
                    p,
                ),
            total_ids(final(self).levels@) == total_ids(old(self).levels@) - 1,
    {
        let ghost pre = *self;
        proof {
            assert(has_level(pre.levels@, price));
        }
        // find the level that rests at this price
        let mut i: usize = 0;
        loop
            invariant
                *self == pre,
                pre.wf(),
                has_level(pre.levels@, price),
                0 <= i <= pre.levels@.len(),
                forall|k: int| 0 <= k < i ==> (#[trigger] pre.levels@[k]).price != price,
            ensures
                0 <= i < pre.levels@.len(),
                pre.levels@[i as int].price == price,
            decreases pre.levels@.len() - i,
        {
            if i >= self.levels.len() {
                proof {
                    let w = level_index(pre.levels@, price);
                    assert(pre.levels@[w].price == price);
                    assert(false);
                }
                break ;
            }
            if self.levels[i].price == price {
                break ;
            }
            i = i + 1;
        }
        proof {
            lemma_level_at(pre, i as int);
        }
        let mut lvl = self.levels.remove(i);
        // find the id inside the level's FIFO
        let ghost ids0 = lvl.ids@;
        let mut j: usize = 0;
        loop
            invariant
                lvl.ids@ == ids0,
                ids0 == pre.levels@[i as int].ids@,
                pre.wf(),
                0 <= i < pre.levels@.len(),
                ids0.contains(order_id),
                0 <= j <= ids0.len(),
                forall|k: int| 0 <= k < j ==> ids0[k] != order_id,
            ensures
                0 <= j < ids0.len(),
                ids0[j as int] == order_id,
            decreases ids0.len() - j,
        {
            if j >= lvl.ids.len() {
                proof {
                    let w = choose|w: int| 0 <= w < ids0.len() && ids0[w] == order_id;
                    assert(false);
                }
                break ;
            }
            if lvl.ids[j] == order_id {
                break ;
            }
            j = j + 1;
        }
        lvl.ids.remove(j);
        proof {
            // the removed position is the unique occurrence, so it is the one
            // `remove_value` names
            ids0.index_of_first_ensures(order_id);
            match ids0.index_of_first(order_id) {
                Some(w) => {
                    assert(ids0[w] == order_id);
                    assert(w == j as int);
                },
                None => {
                    assert(false);
                },
            }
            assert(lvl.ids@ == ids0.remove_value(order_id));
        }
        if lvl.ids.len() > 0 {
            self.levels.insert(i, lvl);
            proof {
                assert(self.levels@ =~= pre.levels@.update(i as int, self.levels@[i as int]));
                assert forall|a: int, b: int|
                    0 <= a < b < self.levels@[i as int].ids@.len() implies self.levels@[i as int].ids@[a]
                    != self.levels@[i as int].ids@[b] by {
                    let a0 = if a < j as int { a } else { a + 1 };
                    let b0 = if b < j as int { b } else { b + 1 };
                    assert(ids0[a0] != ids0[b0]);
                }
                lemma_update_level(pre, *self, i as int, self.levels@[i as int].ids@);
            }
        } else {
            proof {
                assert(self.levels@ =~= pre.levels@.remove(i as int));
                lemma_remove_level(pre, *self, i as int);
                assert(ids0.remove_value(order_id) =~= Seq::<u64>::empty());
            }
        }
    }

    /// All resting ids in priority order: best price first, FIFO within a
    /// level.
    pub fn iter(&self) -> (r: Vec<u64>)
        requires
            self.wf(),
        ensures
            r@ == flat_ids(self.levels@),
    {
        let mut r: Vec<u64> = Vec::new();
        let mut i: usize = 0;
        while i < self.levels.len()
            invariant
                0 <= i <= self.levels@.len(),
                r@ == flat_ids(self.levels@.take(i as int)),
            decreases self.levels@.len() - i,
        {
            let ghost mid = r@;
            let mut j: usize = 0;
            while j < self.levels[i].ids.len()
                invariant
                    0 <= i < self.levels@.len(),
                    0 <= j <= self.levels@[i as int].ids@.len(),
                    r@ == mid + self.levels@[i as int].ids@.take(j as int),
                decreases self.levels@[i as int].ids@.len() - j,
            {
                r.push(self.levels[i].ids[j]);
                proof {
                    assert(self.levels@[i as int].ids@.take(j as int + 1)
                        =~= self.levels@[i as int].ids@.take(j as int).push(
                        self.levels@[i as int].ids@[j as int],
                    ));
                    assert(mid + self.levels@[i as int].ids@.take(j as int + 1) =~= (mid
                        + self.levels@[i as int].ids@.take(j as int)).push(
                        self.levels@[i as int].ids@[j as int],
                    ));
                }
                j = j + 1;
            }
            proof {
                assert(self.levels@[i as int].ids@.take(self.levels@[i as int].ids@.len() as int)
                    =~= self.levels@[i as int].ids@);
                lemma_flat_ids_take_step(self.levels@, i as int);
            }
            i = i + 1;
        }
        proof {
            assert(self.levels@.take(self.levels@.len() as int) =~= self.levels@);
        }
        r
    }

    /// Append `order_id` to the FIFO at `price`, creating the level at its
    /// priority position if it is absent.  Every other level is untouched.
    pub fn push(&mut self, price: u64, order_id: u64)
        requires
            old(self).wf(),
            !side_contains(old(self).levels@, order_id),
        ensures
            final(self).wf(),
            final(self).side == old(self).side,
            ids_at(final(self).levels@, price) == ids_at(old(self).levels@, price).push(order_id),
            forall|p: u64|
                p != price ==> #[trigger] ids_at(final(self).levels@, p) == ids_at(
                    old(self).levels@,
                    p,
                ),
            total_ids(final(self).levels@) == total_ids(old(self).levels@) + 1,
            forall|x: u64|
                #[trigger] side_contains(final(self).levels@, x) <==> side_contains(
                    old(self).levels@,
                    x,
                ) || x == order_id,
    {
        let ghost pre = self.levels@;
        let mut i: usize = 0;
        loop
            invariant
                self.wf(),
                *self == *old(self),
                0 <= i <= self.levels@.len(),
                forall|j: int|
                    0 <= j < i ==> price_before(
                        self.side,
                        (#[trigger] self.levels@[j]).price,
                        price,
                    ),
            ensures
                0 <= i <= self.levels@.len(),
                forall|j: int|
                    0 <= j < i ==> price_before(
                        self.side,
                        (#[trigger] self.levels@[j]).price,
                        price,
                    ),
                i == self.levels@.len() || !price_before(
                    self.side,
                    self.levels@[i as int].price,
                    price,
                ),
            decreases self.levels@.len() - i,
        {
            if i >= self.levels.len() {
                break ;
            }
            let ahead = match self.side {
                Side::Ask => self.levels[i].price < price,
                Side::Bid => self.levels[i].price > price,
            };
            if !ahead {
                break ;
            }
            i = i + 1;
        }
        proof {
            assert(i as int == pre.len() || !price_before(self.side, pre[i as int].price, price));
            assert(forall|j: int|
                0 <= j < i ==> price_before(self.side, (#[trigger] pre[j]).price, price));
        }
        if i < self.levels.len() && self.levels[i].price == price {
            // the level exists: append to its FIFO
            proof {
                lemma_level_at(*self, i as int);
            }
            let mut lvl = self.levels.remove(i);
            lvl.ids.push(order_id);
            self.levels.insert(i, lvl);
            proof {
                let post = self.levels@;
                assert(post =~= pre.update(i as int, post[i as int]));
                assert(post[i as int].ids@ == pre[i as int].ids@.push(order_id));
                // well-formedness: only level i changed, and it stays non-empty,
                // sorted as before, and duplicate-free (order_id was absent).
                assert forall|a: int, b: int|
                    0 <= a < b < post[i as int].ids@.len() implies post[i as int].ids@[a]
                    != post[i as int].ids@[b] by {
                    if b < pre[i as int].ids@.len() {
                    } else {
                        assert(post[i as int].ids@[b] == order_id);
                        assert(pre[i as int].ids@.contains(pre[i as int].ids@[a]));
                        assert(side_contains(pre, pre[i as int].ids@[a]));
                    }
                }
                assert(self.wf());
                // ids_at: level i keeps its price, so lookups are stable
                lemma_level_at(*self, i as int);
                assert(ids_at(post, price) == ids_at(pre, price).push(order_id));
                assert forall|p: u64| p != price implies #[trigger] ids_at(post, p) == ids_at(
                    pre,
                    p,
                ) by {
                    if has_level(pre, p) {
                        let k = level_index(pre, p);
                        assert(pre[k].price == p);
                        assert(post[k] == pre[k]);
                        lemma_level_at(*self, k);
                        lemma_level_at(*old(self), k);
                        assert(ids_at(post, p) == post[k].ids@);
                    } else {
                        assert forall|k: int| 0 <= k < post.len() implies post[k].price != p by {
                            assert(pre[k].price == post[k].price);
                        }
                        assert(!has_level(post, p));
                    }
                }
                // counting
                lemma_total_ids_split(pre, i as int);
                lemma_total_ids_skip_unfold(pre, i as int);
                lemma_total_ids_split(post, i as int);
                lemma_total_ids_skip_unfold(post, i as int);
                assert(post.take(i as int) =~= pre.take(i as int));
                assert(post.skip(i as int + 1) =~= pre.skip(i as int + 1));
                // membership
                assert forall|x: u64| #[trigger]
                    side_contains(post, x) implies side_contains(pre, x) || x == order_id by {
                    let k = choose|k: int| 0 <= k < post.len() && post[k].ids@.contains(x);
                    if k == i as int {
                        let a = choose|a: int|
                            0 <= a < post[k].ids@.len() && post[k].ids@[a] == x;
                        if a < pre[k].ids@.len() {
                            assert(pre[k].ids@.contains(x));
                        }
                    }
                }
                assert forall|x: u64|
                    side_contains(pre, x) || x == order_id implies #[trigger] side_contains(
                    post,
                    x,
                ) by {
                    if side_contains(pre, x) {
                        let k = choose|k: int| 0 <= k < pre.len() && pre[k].ids@.contains(x);
                        if k == i as int {
                            let a = choose|a: int|
                                0 <= a < pre[k].ids@.len() && pre[k].ids@[a] == x;
                            assert(post[k].ids@[a] == x);
                            assert(post[k].ids@.contains(x));
                        } else {
                            assert(post[k].ids@.contains(x));
                        }
                    } else {
                        assert(post[i as int].ids@.last() == order_id);
                        assert(post[i as int].ids@.contains(order_id));
                    }
                }
            }
        } else {
            // no level at this price yet: create one at position i
            let mut ids: Vec<u64> = Vec::new();
            ids.push(order_id);
            let lvl = Level { price, ids };
            proof {
                assert(lvl.ids@ =~= seq![order_id]);
            }
            self.levels.insert(i, lvl);
            proof {
                let post = self.levels@;
                assert(post == pre.insert(i as int, lvl));
                // no pre level carries this price
                assert forall|k: int| 0 <= k < pre.len() implies pre[k].price != price by {
                    if k < i as int {
                        assert(price_before(self.side, pre[k].price, price));
                    } else {
                        assert(post[k + 1] == pre[k]);
                        if pre[k].price == price {
                            if k > i as int {
                                assert(price_before(self.side, pre[i as int].price, pre[k].price));
                                assert(!price_before(self.side, pre[i as int].price, price));
                                assert(false);
                            } else {
                                assert(false);
                            }
                        }
                    }
                }
                assert(!has_level(pre, price));
                // sortedness of the new arrangement
                assert forall|a: int, b: int|
                    0 <= a < b < post.len() implies #[trigger] price_before(
                    self.side,
                    post[a].price,
                    post[b].price,
                ) by {
                    if a == i as int {
                        // post[b] == pre[b-1], b-1 >= i: not ahead of price, and != price
                        assert(post[b] == pre[b - 1]);
                        if b - 1 > i as int {
                            assert(price_before(self.side, pre[i as int].price, pre[b - 1].price));
                        }
                        assert(!price_before(self.side, pre[b - 1].price, price));
                        assert(pre[b - 1].price != price);
                    } else if b == i as int {
                        assert(post[a] == pre[a]);
                        assert(price_before(self.side, pre[a].price, price));
                    } else {
                        let a0 = if a < i as int { a } else { a - 1 };
                        let b0 = if b < i as int { b } else { b - 1 };
                        assert(post[a] == pre[a0]);
                        assert(post[b] == pre[b0]);
                    }
                }
                assert(self.wf());
                lemma_level_at(*self, i as int);
                assert(ids_at(post, price) =~= ids_at(pre, price).push(order_id));
                assert forall|p: u64| p != price implies #[trigger] ids_at(post, p) == ids_at(
                    pre,
                    p,
                ) by {
                    if has_level(pre, p) {
                        let k = level_index(pre, p);
                        let k2 = if k < i as int { k } else { k + 1 };
                        assert(post[k2] == pre[k]);
                        lemma_level_at(*self, k2);
                        lemma_level_at(*old(self), k);
                    } else {
                        assert forall|k: int| 0 <= k < post.len() implies post[k].price != p by {
                            if k < i as int {
                                assert(post[k] == pre[k]);
                                assert(pre[k].price != p);
                            } else if k == i as int {
                            } else {
                                assert(post[k] == pre[k - 1]);
                                assert(pre[k - 1].price != p);
                            }
                        }
                        assert(!has_level(post, p));
                    }
                }
                // counting
                lemma_total_ids_split(pre, i as int);
                lemma_total_ids_split(post, i as int);
                lemma_total_ids_skip_unfold(post, i as int);
                assert(post.take(i as int) =~= pre.take(i as int));
                assert(post.skip(i as int + 1) =~= pre.skip(i as int));
                // membership
                assert forall|x: u64| #[trigger]
                    side_contains(post, x) implies side_contains(pre, x) || x == order_id by {
                    let k = choose|k: int| 0 <= k < post.len() && post[k].ids@.contains(x);
                    if k != i as int {
                        let k0 = if k < i as int { k } else { k - 1 };
                        assert(pre[k0].ids@.contains(x));
                    }
                }
                assert forall|x: u64|
                    side_contains(pre, x) || x == order_id implies #[trigger] side_contains(
                    post,
                    x,
                ) by {
                    if side_contains(pre, x) {
                        let k = choose|k: int| 0 <= k < pre.len() && pre[k].ids@.contains(x);
                        let k2 = if k < i as int { k } else { k + 1 };
                        assert(post[k2].ids@.contains(x));
                    } else {
                        assert(post[i as int].ids@[0] == order_id);
                        assert(post[i as int].ids@.contains(order_id));
                    }
                }
            }
        }
    }
}

/// The order index: the authoritative map from order id to order record.
#[derive(Debug)]
pub struct OrdersById {
    pub orders: Vec<LimitOrder>,
}

/// An integer-valued sum over a sequence of orders.
pub open spec fn seq_isum(s: Seq<LimitOrder>, f: spec_fn(LimitOrder) -> int) -> int
    decreases s.len(),
{
    if s.len() == 0 {
        0
    } else {
        f(s[0]) + seq_isum(s.drop_first(), f)
    }
}

/// `seq_isum` splits at any position.
pub proof fn lemma_isum_split(s: Seq<LimitOrder>, f: spec_fn(LimitOrder) -> int, i: int)
    requires
        0 <= i <= s.len(),
    ensures
        seq_isum(s, f) == seq_isum(s.take(i), f) + seq_isum(s.skip(i), f),
    decreases i,
{
    if i == 0 {
        assert(s.take(0) =~= Seq::<LimitOrder>::empty());
        assert(s.skip(0) =~= s);
    } else {
        lemma_isum_split(s.drop_first(), f, i - 1);
        assert(s.take(i).drop_first() =~= s.drop_first().take(i - 1));
        assert(s.drop_first().skip(i - 1) =~= s.skip(i));
        assert(seq_isum(s.take(i), f) == f(s[0]) + seq_isum(s.drop_first().take(i - 1), f));
    }
}

/// `seq_isum` of a tail, unfolded once.
pub proof fn lemma_isum_skip_unfold(s: Seq<LimitOrder>, f: spec_fn(LimitOrder) -> int, i: int)
    requires
        0 <= i < s.len(),
    ensures
        seq_isum(s.skip(i), f) == f(s[i]) + seq_isum(s.skip(i + 1), f),
{
    assert(s.skip(i).len() > 0);
    assert(s.skip(i)[0] == s[i]);
    assert(s.skip(i).drop_first() =~= s.skip(i + 1));
}

/// Appending to a sequence adds one term to the sum.
pub proof fn lemma_isum_push(s: Seq<LimitOrder>, f: spec_fn(LimitOrder) -> int, o: LimitOrder)
    ensures
        seq_isum(s.push(o), f) == seq_isum(s, f) + f(o),
{
    let s2 = s.push(o);
    lemma_isum_split(s2, f, s.len() as int);
    assert(s2.take(s.len() as int) =~= s);
    lemma_isum_skip_unfold(s2, f, s.len() as int);
    assert(s2.skip(s.len() as int + 1) =~= Seq::<LimitOrder>::empty());
}

/// Removing one element subtracts its term from the sum.
pub proof fn lemma_isum_remove(s: Seq<LimitOrder>, f: spec_fn(LimitOrder) -> int, k: int)
    requires
        0 <= k < s.len(),
    ensures
        seq_isum(s.remove(k), f) == seq_isum(s, f) - f(s[k]),
{
    let s2 = s.remove(k);
    lemma_isum_split(s, f, k);
    lemma_isum_skip_unfold(s, f, k);
    lemma_isum_split(s2, f, k);
    assert(s2.take(k) =~= s.take(k));
    assert(s2.skip(k) =~= s.skip(k + 1));
}

/// Replacing one element adjusts the sum by the difference of its terms.
pub proof fn lemma_isum_update(
    s: Seq<LimitOrder>,
    f: spec_fn(LimitOrder) -> int,
    k: int,
    o: LimitOrder,
)
    requires
        0 <= k < s.len(),
    ensures
        seq_isum(s.update(k, o), f) == seq_isum(s, f) - f(s[k]) + f(o),
{
    let s2 = s.update(k, o);
    lemma_isum_split(s, f, k);
    lemma_isum_skip_unfold(s, f, k);
    lemma_isum_split(s2, f, k);
    lemma_isum_skip_unfold(s2, f, k);
    assert(s2.take(k) =~= s.take(k));
    assert(s2.skip(k + 1) =~= s.skip(k + 1));
}

/// One loop step of a front-to-back sum.
pub proof fn lemma_isum_take_step(s: Seq<LimitOrder>, f: spec_fn(LimitOrder) -> int, i: int)
    requires
        0 <= i < s.len(),
    ensures
        seq_isum(s.take(i + 1), f) == seq_isum(s.take(i), f) + f(s[i]),
{
    let t = s.take(i + 1);
    lemma_isum_split(t, f, i);
    assert(t.take(i) =~= s.take(i));
    lemma_isum_skip_unfold(t, f, i);
    assert(t.skip(i + 1) =~= Seq::<LimitOrder>::empty());
}

/// Sums agree when the terms agree on every element.
pub proof fn lemma_isum_pointwise(
    s: Seq<LimitOrder>,
    f: spec_fn(LimitOrder) -> int,
    g: spec_fn(LimitOrder) -> int,
)
    requires
        forall|k: int| 0 <= k < s.len() ==> #[trigger] f(s[k]) == g(s[k]),
    ensures
        seq_isum(s, f) == seq_isum(s, g),
    decreases s.len(),
{
    if s.len() > 0 {
        assert forall|k: int| 0 <= k < s.drop_first().len() implies #[trigger] f(
            s.drop_first()[k],
        ) == g(s.drop_first()[k]) by {
            assert(s.drop_first()[k] == s[k + 1]);
        }
        lemma_isum_pointwise(s.drop_first(), f, g);
    }
}

/// A sum of zero terms is zero.
pub proof fn lemma_isum_zero(s: Seq<LimitOrder>, f: spec_fn(LimitOrder) -> int)
    requires
        forall|k: int| 0 <= k < s.len() ==> #[trigger] f(s[k]) == 0,
    ensures
        seq_isum(s, f) == 0,
    decreases s.len(),
{
    if s.len() > 0 {
        assert forall|k: int| 0 <= k < s.drop_first().len() implies #[trigger] f(
            s.drop_first()[k],
        ) == 0 by {
            assert(s.drop_first()[k] == s[k + 1]);
        }
        lemma_isum_zero(s.drop_first(), f);
    }
}

/// Sums whose terms agree everywhere but at one position differ by that
/// position's terms.
pub proof fn lemma_isum_pointwise_except(
    s: Seq<LimitOrder>,
    f: spec_fn(LimitOrder) -> int,
    g: spec_fn(LimitOrder) -> int,
    k0: int,
)
    requires
        0 <= k0 < s.len(),
        forall|k: int| 0 <= k < s.len() && k != k0 ==> #[trigger] f(s[k]) == g(s[k]),
    ensures
        seq_isum(s, f) == seq_isum(s, g) + f(s[k0]) - g(s[k0]),
{
    lemma_isum_split(s, f, k0);
    lemma_isum_skip_unfold(s, f, k0);
    lemma_isum_split(s, g, k0);
    lemma_isum_skip_unfold(s, g, k0);
    assert forall|k: int| 0 <= k < s.take(k0).len() implies #[trigger] f(s.take(k0)[k]) == g(
        s.take(k0)[k],
    ) by {
        assert(s.take(k0)[k] == s[k]);
    }
    lemma_isum_pointwise(s.take(k0), f, g);
    assert forall|k: int| 0 <= k < s.skip(k0 + 1).len() implies #[trigger] f(s.skip(k0 + 1)[k])
        == g(s.skip(k0 + 1)[k]) by {
        assert(s.skip(k0 + 1)[k] == s[k + k0 + 1]);
    }
    lemma_isum_pointwise(s.skip(k0 + 1), f, g);
}

/// A sum of non-negative terms is non-negative.
pub proof fn lemma_isum_nonneg(s: Seq<LimitOrder>, f: spec_fn(LimitOrder) -> int)
    requires
        forall|k: int| 0 <= k < s.len() ==> #[trigger] f(s[k]) >= 0,
    ensures
        seq_isum(s, f) >= 0,
    decreases s.len(),
{
    if s.len() > 0 {
        assert forall|k: int| 0 <= k < s.drop_first().len() implies #[trigger] f(
            s.drop_first()[k],
        ) >= 0 by {
            assert(s.drop_first()[k] == s[k + 1]);
        }
        lemma_isum_nonneg(s.drop_first(), f);
    }
}

/// The number of orders on `side`.
pub open spec fn count_side(s: Seq<LimitOrder>, side: Side) -> int {
    seq_isum(s, |o: LimitOrder| if o.side == side { 1int } else { 0int })
}

/// The total remaining quantity over the orders on `side`.
pub open spec fn volume_side(s: Seq<LimitOrder>, side: Side) -> int {
    seq_isum(s, |o: LimitOrder| if o.side == side { o.spec_remaining() } else { 0int })
}

impl OrdersById {
    /// Well-formedness: ids are unique.
    pub open spec fn wf(self) -> bool {
        forall|i: int, j: int|
            0 <= i < j < self.orders@.len() ==> (#[trigger] self.orders@[i]).order_id != (
            #[trigger] self.orders@[j]).order_id
    }

    /// Whether an order with this id is indexed.
    pub open spec fn spec_contains(self, id: u64) -> bool {
        exists|k: int| 0 <= k < self.orders@.len() && (#[trigger] self.orders@[k]).order_id == id
    }

    /// The position of the order with this id (meaningful when indexed and
    /// well formed).
    pub open spec fn spec_index_of(self, id: u64) -> int {
        choose|k: int| 0 <= k < self.orders@.len() && (#[trigger] self.orders@[k]).order_id == id
    }

    /// The indexed order with this id.
    pub open spec fn spec_get(self, id: u64) -> LimitOrder {
        self.orders@[self.spec_index_of(id)]
    }

    /// Find the position of the order with the given id.
    pub fn find(&self, order_id: u64) -> (r: Option<usize>)
        requires
            self.wf(),
        ensures
            match r {
                Some(k) => self.spec_contains(order_id) && self.spec_index_of(order_id) == k as int
                    && k < self.orders@.len() && self.orders@[k as int].order_id == order_id,
                None => !self.spec_contains(order_id),
            },
    {
        let mut k: usize = 0;
        loop
            invariant
                self.wf(),
                0 <= k <= self.orders@.len(),
                forall|j: int| 0 <= j < k ==> (#[trigger] self.orders@[j]).order_id != order_id,
            ensures
                (k == self.orders@.len() && !self.spec_contains(order_id)) || (k
                    < self.orders@.len() && self.orders@[k as int].order_id == order_id),
            decreases self.orders@.len() - k,
        {
            if k >= self.orders.len() {
                break ;
            }
            if self.orders[k].order_id == order_id {
                break ;
            }
            k = k + 1;
        }
        if k < self.orders.len() {
            proof {
                let w = self.spec_index_of(order_id);
                assert(self.spec_contains(order_id));
                if w != k as int {
                    assert(self.orders@[w].order_id == self.orders@[k as int].order_id);
                    assert(false);
                }
            }
            Some(k)
        } else {
            None
        }
    }
}

/// A position in a well-formed index determines the lookup.
pub proof fn lemma_index_found(idx: OrdersById, k: int)
    requires
        idx.wf(),
        0 <= k < idx.orders@.len(),
    ensures
        idx.spec_contains(idx.orders@[k].order_id),
        idx.spec_index_of(idx.orders@[k].order_id) == k,
        idx.spec_get(idx.orders@[k].order_id) == idx.orders@[k],
{
    let id = idx.orders@[k].order_id;
    assert(idx.spec_contains(id));
    let w = idx.spec_index_of(id);
    assert(0 <= w < idx.orders@.len() && idx.orders@[w].order_id == id);
    if w != k {
        assert(idx.orders@[w].order_id != idx.orders@[k].order_id);
        assert(false);
    }
}

/// Appending a fresh order leaves every other lookup stable.
pub proof fn lemma_index_push(pre: OrdersById, post: OrdersById, o: LimitOrder)
    requires
        pre.wf(),
        !pre.spec_contains(o.order_id),
        post.orders@ == pre.orders@.push(o),
    ensures
        post.wf(),
        post.spec_contains(o.order_id),
        post.spec_get(o.order_id) == o,
        forall|id: u64|
            id != o.order_id ==> (#[trigger] post.spec_contains(id) <==> pre.spec_contains(id)),
        forall|id: u64|
            id != o.order_id && pre.spec_contains(id) ==> #[trigger] post.spec_get(id)
                == pre.spec_get(id),
{
    let n = pre.orders@.len() as int;
    assert forall|i: int, j: int| 0 <= i < j < post.orders@.len() implies (
    #[trigger] post.orders@[i]).order_id != (#[trigger] post.orders@[j]).order_id by {
        if j < n {
        } else {
            assert(post.orders@[j] == o);
            assert(pre.orders@[i].order_id == post.orders@[i].order_id);
            if post.orders@[i].order_id == o.order_id {
                assert(pre.spec_contains(o.order_id));
            }
        }
    }
    assert(post.orders@[n] == o);
    lemma_index_found(post, n);
    assert forall|id: u64| id != o.order_id implies (#[trigger] post.spec_contains(id)
        <==> pre.spec_contains(id)) by {
        if pre.spec_contains(id) {
            let k = pre.spec_index_of(id);
            assert(post.orders@[k].order_id == id);
        }
        if post.spec_contains(id) {
            let k = choose|k: int|
                0 <= k < post.orders@.len() && (#[trigger] post.orders@[k]).order_id == id;
            assert(k < n);
            assert(pre.orders@[k].order_id == id);
        }
    }
    assert forall|id: u64| id != o.order_id && pre.spec_contains(id) implies #[trigger] post.spec_get(
        id,
    ) == pre.spec_get(id) by {
        let k = pre.spec_index_of(id);
        assert(post.orders@[k].order_id == id);
        lemma_index_found(post, k);
        lemma_index_found(pre, k);
    }
}

/// Removing one order leaves every other lookup stable.
pub proof fn lemma_index_remove(pre: OrdersById, post: OrdersById, k: int)
    requires
        pre.wf(),
        0 <= k < pre.orders@.len(),
        post.orders@ == pre.orders@.remove(k),
    ensures
        post.wf(),
        !post.spec_contains(pre.orders@[k].order_id),
        forall|id: u64|
            id != pre.orders@[k].order_id ==> (#[trigger] post.spec_contains(id)
                <==> pre.spec_contains(id)),
        forall|id: u64|
            id != pre.orders@[k].order_id && pre.spec_contains(id) ==> #[trigger] post.spec_get(id)
                == pre.spec_get(id),
{
    let gone = pre.orders@[k].order_id;
    assert forall|i: int, j: int| 0 <= i < j < post.orders@.len() implies (
    #[trigger] post.orders@[i]).order_id != (#[trigger] post.orders@[j]).order_id by {
        let i0 = if i < k { i } else { i + 1 };
        let j0 = if j < k { j } else { j + 1 };
        assert(post.orders@[i] == pre.orders@[i0]);
        assert(post.orders@[j] == pre.orders@[j0]);
        assert(pre.orders@[i0].order_id != pre.orders@[j0].order_id);
    }
    assert forall|m: int| 0 <= m < post.orders@.len() implies (#[trigger] post.orders@[m]).order_id
        != gone by {
        let m0 = if m < k { m } else { m + 1 };
        assert(post.orders@[m] == pre.orders@[m0]);
        assert(m0 != k);
        assert(pre.orders@[m0].order_id != pre.orders@[k].order_id);
    }
    assert forall|id: u64| id != gone implies (#[trigger] post.spec_contains(id)
        <==> pre.spec_contains(id)) by {
        if pre.spec_contains(id) {
            let m = pre.spec_index_of(id);
            assert(m != k);
            let m2 = if m < k { m } else { m - 1 };
            assert(post.orders@[m2] == pre.orders@[m]);
            assert(post.spec_contains(id));
        }
        if post.spec_contains(id) {
            let m = post.spec_index_of(id);
            let m0 = if m < k { m } else { m + 1 };
            assert(pre.orders@[m0] == post.orders@[m]);
            assert(pre.spec_contains(id));
        }
    }
    assert forall|id: u64| id != gone && pre.spec_contains(id) implies #[trigger] post.spec_get(id)
        == pre.spec_get(id) by {
        let m = pre.spec_index_of(id);
        lemma_index_found(pre, m);
        assert(m != k);
        let m2 = if m < k { m } else { m - 1 };
        assert(post.orders@[m2] == pre.orders@[m]);
        lemma_index_found(post, m2);
    }
}

/// Replacing the record behind an id (id unchanged) leaves every other
/// lookup stable.
pub proof fn lemma_index_update(pre: OrdersById, post: OrdersById, k: int, o: LimitOrder)
    requires
        pre.wf(),
        0 <= k < pre.orders@.len(),
        o.order_id == pre.orders@[k].order_id,
        post.orders@ == pre.orders@.update(k, o),
    ensures
        post.wf(),
        post.spec_contains(o.order_id),
        post.spec_get(o.order_id) == o,
        forall|id: u64|
            id != o.order_id ==> (#[trigger] post.spec_contains(id) <==> pre.spec_contains(id)),
        forall|id: u64|
            id != o.order_id && pre.spec_contains(id) ==> #[trigger] post.spec_get(id)
                == pre.spec_get(id),
{
    assert forall|i: int, j: int| 0 <= i < j < post.orders@.len() implies (
    #[trigger] post.orders@[i]).order_id != (#[trigger] post.orders@[j]).order_id by {
        assert(post.orders@[i].order_id == pre.orders@[i].order_id);
        assert(post.orders@[j].order_id == pre.orders@[j].order_id);
        assert(pre.orders@[i].order_id != pre.orders@[j].order_id);
    }
    lemma_index_found(post, k);
    assert forall|id: u64| id != o.order_id implies (#[trigger] post.spec_contains(id)
        <==> pre.spec_contains(id)) by {
        if pre.spec_contains(id) {
            let m = pre.spec_index_of(id);
            assert(post.orders@[m].order_id == id);
        }
        if post.spec_contains(id) {
            let m = post.spec_index_of(id);
            assert(pre.orders@[m].order_id == id);
        }
    }
    assert forall|id: u64| id != o.order_id && pre.spec_contains(id) implies #[trigger] post.spec_get(
        id,
    ) == pre.spec_get(id) by {
        let m = pre.spec_index_of(id);
        lemma_index_found(pre, m);
        assert(m != k);
        assert(post.orders@[m] == pre.orders@[m]);
        lemma_index_found(post, m);
    }
}

/// The order book: two side books plus the order index, moved in lockstep.
#[derive(Debug)]
pub struct Book {
    pub asks: SideBook,
    pub bids: SideBook,
    pub orders_by_id: OrdersById,
}

impl Default for Book {
    /// The initial state: an empty book.
    fn default() -> (r: Self)
        ensures
            r.wf(),
            r.spec_is_empty(),
            r.uncrossed(),
            r.count_of(Side::Ask) == 0,
            r.count_of(Side::Bid) == 0,
            r.volume_of(Side::Ask) == 0,
            r.volume_of(Side::Bid) == 0,
            forall|id: u64| !r.spec_contains(id),
            forall|p: u64| ids_at(r.levels_of(Side::Ask), p) == Seq::<u64>::empty(),
            forall|p: u64| ids_at(r.levels_of(Side::Bid), p) == Seq::<u64>::empty(),
    {
        Book {
            asks: SideBook::new(Side::Ask),
            bids: SideBook::new(Side::Bid),
            orders_by_id: OrdersById { orders: Vec::new() },
        }
    }
}

/// Immutable identity of an order: everything but the fill state.
pub open spec fn same_identity(a: LimitOrder, b: LimitOrder) -> bool {
    &&& a.user_id == b.user_id
    &&& a.order_id == b.order_id
    &&& a.price == b.price
    &&& a.quantity == b.quantity
    &&& a.side == b.side
    &&& a.order_symbol == b.order_symbol
    &&& a.timestamp == b.timestamp
}

impl Book {
    /// The indexed order records, in arrival order.
    pub open spec fn orders(self) -> Seq<LimitOrder> {
        self.orders_by_id.orders@
    }

    /// The side book of `side`.
    pub open spec fn side_book(self, side: Side) -> SideBook {
        match side {
            Side::Ask => self.asks,
            Side::Bid => self.bids,
        }
    }

    /// The levels of `side`.
    pub open spec fn levels_of(self, side: Side) -> Seq<Level> {
        self.side_book(side).levels@
    }

    pub open spec fn spec_contains(self, id: u64) -> bool {
        self.orders_by_id.spec_contains(id)
    }

    pub open spec fn spec_get(self, id: u64) -> LimitOrder {
        self.orders_by_id.spec_get(id)
    }

    /// The number of orders resting on `side`.
    pub open spec fn count_of(self, side: Side) -> int {
        count_side(self.orders(), side)
    }

    /// The total remaining quantity resting on `side`.
    pub open spec fn volume_of(self, side: Side) -> int {
        volume_side(self.orders(), side)
    }

    /// The book holds nothing.
    pub open spec fn spec_is_empty(self) -> bool {
        self.orders().len() == 0 && self.levels_of(Side::Ask).len() == 0 && self.levels_of(
            Side::Bid,
        ).len() == 0
    }

    /// One direction of the cross-structure invariant: every id resting in
    /// the side book of `side` is indexed, with the matching side and price.
    pub open spec fn side_to_index_ok(self, side: Side) -> bool {
        forall|p: u64, j: int|
            0 <= j < ids_at(self.levels_of(side), p).len() ==> {
                let id = #[trigger] ids_at(self.levels_of(side), p)[j];
                &&& self.spec_contains(id)
                &&& self.spec_get(id).side == side
                &&& self.spec_get(id).price == p
            }
    }

    /// Cross-structure well-formedness of the book.  This is the invariant
    /// every operation preserves:
    /// - both side books are well formed (no empty level, priority-sorted
    ///   unique prices, no duplicate id within a level);
    /// - indexed ids are unique;
    /// - every indexed order is valid, open, and rests in its side book at
    ///   its own price, and vice-versa;
    /// - the resting counts of side books and index agree, per side;
    /// - the total resting volume fits in a `u64`.
    pub open spec fn wf(self) -> bool {
        &&& self.asks.side == Side::Ask
        &&& self.bids.side == Side::Bid
        &&& self.asks.wf()
        &&& self.bids.wf()
        &&& self.orders_by_id.wf()
        &&& forall|k: int|
            0 <= k < self.orders().len() ==> (#[trigger] self.orders()[k]).valid()
                && !self.orders()[k].spec_is_closed()
        &&& forall|k: int|
            0 <= k < self.orders().len() ==> ids_at(
                self.levels_of(self.orders()[k].side),
                self.orders()[k].price,
            ).contains((#[trigger] self.orders()[k]).order_id)
        &&& self.side_to_index_ok(Side::Ask)
        &&& self.side_to_index_ok(Side::Bid)
        &&& total_ids(self.levels_of(Side::Ask)) == self.count_of(Side::Ask)
        &&& total_ids(self.levels_of(Side::Bid)) == self.count_of(Side::Bid)
        &&& self.volume_of(Side::Ask) + self.volume_of(Side::Bid) <= u64::MAX
    }

    /// How `insert` changes the book: the order is appended to the index
    /// and to the back of the FIFO at its own side and price; everything
    /// else — the opposite side, every other price level, every other
    /// indexed order — is untouched, and the per-side count and volume grow
    /// by the order.
    pub open spec fn place_effect(pre: Book, o: LimitOrder, post: Book) -> bool {
        &&& post.orders() == pre.orders().push(o)
        &&& post.side_book(o.side.spec_opposite()) == pre.side_book(o.side.spec_opposite())
        &&& ids_at(post.levels_of(o.side), o.price) == ids_at(pre.levels_of(o.side), o.price).push(
            o.order_id,
        )
        &&& forall|p: u64|
            p != o.price ==> #[trigger] ids_at(post.levels_of(o.side), p) == ids_at(
                pre.levels_of(o.side),
                p,
            )
        &&& post.count_of(o.side) == pre.count_of(o.side) + 1
        &&& post.count_of(o.side.spec_opposite()) == pre.count_of(o.side.spec_opposite())
        &&& post.volume_of(o.side) == pre.volume_of(o.side) + o.spec_remaining()
        &&& post.volume_of(o.side.spec_opposite()) == pre.volume_of(o.side.spec_opposite())
        &&& post.spec_contains(o.order_id)
        &&& post.spec_get(o.order_id) == o
        &&& forall|id: u64|
            id != o.order_id ==> (#[trigger] post.spec_contains(id) <==> pre.spec_contains(id))
        &&& forall|id: u64|
            id != o.order_id && pre.spec_contains(id) ==> #[trigger] post.spec_get(id)
                == pre.spec_get(id)
    }

    /// An empty book.
    pub fn new() -> (r: Book)
        ensures
            r.wf(),
            r.spec_is_empty(),
            r.uncrossed(),
            r.count_of(Side::Ask) == 0,
            r.count_of(Side::Bid) == 0,
            r.volume_of(Side::Ask) == 0,
            r.volume_of(Side::Bid) == 0,
            forall|id: u64| !r.spec_contains(id),
            forall|p: u64| ids_at(r.levels_of(Side::Ask), p) == Seq::<u64>::empty(),
            forall|p: u64| ids_at(r.levels_of(Side::Bid), p) == Seq::<u64>::empty(),
    {
        Self::default()
    }

    /// Whether an order with this id rests in the book.
    pub fn contains(&self, order_id: u64) -> (r: bool)
        requires
            self.wf(),
        ensures
            r == self.spec_contains(order_id),
    {
        match self.orders_by_id.find(order_id) {
            Some(_) => true,
            None => false,
        }
    }

    /// Insert a new order: it joins the index and the back of the FIFO at
    /// its `(side, price)` level.  The caller owes a fresh id, a valid open
    /// order, and room in the book's total volume.
    pub fn insert(&mut self, order: LimitOrder)
        requires
            old(self).wf(),
            !old(self).spec_contains(order.order_id),
            order.valid(),
            !order.spec_is_closed(),
            old(self).volume_of(Side::Ask) + old(self).volume_of(Side::Bid)
                + order.spec_remaining() <= u64::MAX,
        ensures
            final(self).wf(),
            Book::place_effect(*old(self), order, *final(self)),
    {
        let ghost pre = *self;
        proof {
            // a fresh id rests on neither side
            assert forall|side: Side| !side_contains(pre.levels_of(side), order.order_id) by {
                if side_contains(pre.levels_of(side), order.order_id) {
                    lemma_side_contains_ids_at(pre.side_book(side), order.order_id);
                    let p = choose|p: u64|
                        ids_at(pre.levels_of(side), p).contains(order.order_id);
                    let j = choose|j: int|
                        0 <= j < ids_at(pre.levels_of(side), p).len() && ids_at(
                            pre.levels_of(side),
                            p,
                        )[j] == order.order_id;
                    assert(pre.spec_contains(ids_at(pre.levels_of(side), p)[j]));
                    assert(false);
                }
            }
        }
        match order.side {
            Side::Ask => self.asks.push(order.price, order.order_id),
            Side::Bid => self.bids.push(order.price, order.order_id),
        }
        self.orders_by_id.orders.push(order.clone());
        proof {
            lemma_index_push(pre.orders_by_id, self.orders_by_id, order);
            lemma_isum_push(
                pre.orders(),
                |o: LimitOrder| if o.side == Side::Ask { 1int } else { 0int },
                order,
            );
            lemma_isum_push(
                pre.orders(),
                |o: LimitOrder| if o.side == Side::Bid { 1int } else { 0int },
                order,
            );
            lemma_isum_push(
                pre.orders(),
                |o: LimitOrder| if o.side == Side::Ask { o.spec_remaining() } else { 0int },
                order,
            );
            lemma_isum_push(
                pre.orders(),
                |o: LimitOrder| if o.side == Side::Bid { o.spec_remaining() } else { 0int },
                order,
            );
            let n = pre.orders().len() as int;
            // every old order still rests where it did
            assert forall|k: int| 0 <= k < self.orders().len() implies ids_at(
                self.levels_of(self.orders()[k].side),
                self.orders()[k].price,
            ).contains((#[trigger] self.orders()[k]).order_id) by {
                if k < n {
                    let o = pre.orders()[k];
                    assert(self.orders()[k] == o);
                    let old_ids = ids_at(pre.levels_of(o.side), o.price);
                    let new_ids = ids_at(self.levels_of(o.side), o.price);
                    let j = choose|j: int| 0 <= j < old_ids.len() && old_ids[j] == o.order_id;
                    if o.side == order.side && o.price == order.price {
                        assert(new_ids == old_ids.push(order.order_id));
                        assert(new_ids[j] == o.order_id);
                    } else if o.side == order.side {
                        assert(new_ids == old_ids);
                    } else {
                        assert(self.side_book(o.side) == pre.side_book(o.side));
                    }
                    assert(new_ids.contains(o.order_id));
                } else {
                    assert(self.orders()[k] == order);
                    let new_ids = ids_at(self.levels_of(order.side), order.price);
                    assert(new_ids.last() == order.order_id);
                    assert(new_ids.contains(order.order_id));
                }
            }
            // every resting id is still indexed with matching side and price
            assert forall|side: Side| #[trigger] self.side_to_index_ok(side) by {
                assert forall|p: u64, j: int|
                    0 <= j < ids_at(self.levels_of(side), p).len() implies {
                    let id = #[trigger] ids_at(self.levels_of(side), p)[j];
                    &&& self.spec_contains(id)
                    &&& self.spec_get(id).side == side
                    &&& self.spec_get(id).price == p
                } by {
                    let id = ids_at(self.levels_of(side), p)[j];
                    let old_ids = ids_at(pre.levels_of(side), p);
                    let new_ids = ids_at(self.levels_of(side), p);
                    if side == order.side && p == order.price {
                        assert(new_ids == old_ids.push(order.order_id));
                        if j < old_ids.len() {
                            assert(old_ids[j] == id);
                            assert(pre.side_to_index_ok(side));
                            assert(pre.spec_contains(id) && pre.spec_get(id).side == side
                                && pre.spec_get(id).price == p);
                            assert(id != order.order_id);
                        } else {
                            assert(id == order.order_id);
                        }
                    } else {
                        if side == order.side {
                            assert(new_ids == old_ids);
                        } else {
                            assert(self.side_book(side) == pre.side_book(side));
                        }
                        assert(old_ids[j] == id);
                        assert(pre.spec_contains(id) && pre.spec_get(id).side == side
                            && pre.spec_get(id).price == p);
                        assert(id != order.order_id);
                    }
                }
            }
            assert(self.wf());
            assert(Book::place_effect(pre, order, *self));
        }
    }

    /// How `remove` (and so `cancel`) changes the book when `id` rests in
    /// it: the record leaves the index, the id leaves its FIFO (and an
    /// emptied level disappears); everything else is untouched, and the
    /// per-side count and volume shrink by the removed order.
    pub open spec fn remove_effect(pre: Book, id: u64, post: Book) -> bool {
        let o = pre.spec_get(id);
        &&& post.orders() == pre.orders().remove(pre.orders_by_id.spec_index_of(id))
        &&& post.side_book(o.side.spec_opposite()) == pre.side_book(o.side.spec_opposite())
        &&& ids_at(post.levels_of(o.side), o.price) == ids_at(
            pre.levels_of(o.side),
            o.price,
        ).remove_value(id)
        &&& forall|p: u64|
            p != o.price ==> #[trigger] ids_at(post.levels_of(o.side), p) == ids_at(
                pre.levels_of(o.side),
                p,
            )
        &&& post.count_of(o.side) == pre.count_of(o.side) - 1
        &&& post.count_of(o.side.spec_opposite()) == pre.count_of(o.side.spec_opposite())
        &&& post.volume_of(o.side) == pre.volume_of(o.side) - o.spec_remaining()
        &&& post.volume_of(o.side.spec_opposite()) == pre.volume_of(o.side.spec_opposite())
        &&& !post.spec_contains(id)
        &&& forall|id2: u64|
            id2 != id ==> (#[trigger] post.spec_contains(id2) <==> pre.spec_contains(id2))
        &&& forall|id2: u64|
            id2 != id && pre.spec_contains(id2) ==> #[trigger] post.spec_get(id2) == pre.spec_get(
                id2,
            )
    }

    /// Remove the order with this id from both structures, without marking
    /// it.  Removing an absent id is a no-op that returns nothing.
    #[verifier::rlimit(60)]
    pub fn remove(&mut self, order_id: &u64) -> (r: Option<LimitOrder>)
        requires
            old(self).wf(),
        ensures
            final(self).wf(),
            !old(self).spec_contains(*order_id) ==> r == None::<LimitOrder> && *final(self) == *old(self),
            old(self).spec_contains(*order_id) ==> r == Some(old(self).spec_get(*order_id))
                && Book::remove_effect(*old(self), *order_id, *final(self)),
    {
        let ghost pre = *self;
        let id = *order_id;
        match self.orders_by_id.find(id) {
            None => None,
            Some(k) => {
                let ghost o = pre.spec_get(id);
                let order = self.orders_by_id.orders.remove(k);
                proof {
                    assert(order == o);
                    lemma_index_remove(pre.orders_by_id, self.orders_by_id, k as int);
                    assert(ids_at(pre.levels_of(o.side), o.price).contains(id));
                }
                match order.side {
                    Side::Ask => self.asks.remove_specific(order.price, order.order_id),
                    Side::Bid => self.bids.remove_specific(order.price, order.order_id),
                }
                proof {
                    lemma_isum_remove(
                        pre.orders(),
                        |x: LimitOrder| if x.side == Side::Ask { 1int } else { 0int },
                        k as int,
                    );
                    lemma_isum_remove(
                        pre.orders(),
                        |x: LimitOrder| if x.side == Side::Bid { 1int } else { 0int },
                        k as int,
                    );
                    lemma_isum_remove(
                        pre.orders(),
                        |x: LimitOrder| if x.side == Side::Ask { x.spec_remaining() } else { 0int },
                        k as int,
                    );
                    lemma_isum_remove(
                        pre.orders(),
                        |x: LimitOrder| if x.side == Side::Bid { x.spec_remaining() } else { 0int },
                        k as int,
                    );
                    let old_ids = ids_at(pre.levels_of(o.side), o.price);
                    let new_ids = ids_at(self.levels_of(o.side), o.price);
                    old_ids.index_of_first_ensures(id);
                    let w = old_ids.index_of_first(id).unwrap();
                    assert(new_ids == old_ids.remove(w));
                    old_ids.remove_ensures(w);
                    // the id does not rest at any other price or side
                    assert forall|side: Side, p: u64|
                        side != o.side || p != o.price implies !ids_at(
                        pre.levels_of(side),
                        p,
                    ).contains(id) by {
                        if ids_at(pre.levels_of(side), p).contains(id) {
                            let j = choose|j: int|
                                0 <= j < ids_at(pre.levels_of(side), p).len() && ids_at(
                                    pre.levels_of(side),
                                    p,
                                )[j] == id;
                            assert(pre.side_to_index_ok(side));
                            assert(pre.spec_get(id).side == side && pre.spec_get(id).price == p);
                        }
                    }
                    // every remaining indexed order still rests in its level
                    assert forall|m: int| 0 <= m < self.orders().len() implies ids_at(
                        self.levels_of(self.orders()[m].side),
                        self.orders()[m].price,
                    ).contains((#[trigger] self.orders()[m]).order_id) by {
                        let m0 = if m < k as int { m } else { m + 1 };
                        let x = pre.orders()[m0];
                        assert(self.orders()[m] == x);
                        assert(x.order_id != id);
                        let xold = ids_at(pre.levels_of(x.side), x.price);
                        let j = choose|j: int| 0 <= j < xold.len() && xold[j] == x.order_id;
                        if x.side == o.side && x.price == o.price {
                            assert(xold[w] == id);
                            assert(j != w);
                            if j < w {
                                assert(new_ids[j] == xold[j]);
                                assert(new_ids.contains(x.order_id));
                            } else {
                                assert(new_ids[j - 1] == xold[j]);
                                assert(new_ids.contains(x.order_id));
                            }
                        } else if x.side == o.side {
                            assert(ids_at(self.levels_of(x.side), x.price) == xold);
                            assert(ids_at(self.levels_of(x.side), x.price).contains(x.order_id));
                        } else {
                            assert(self.side_book(x.side) == pre.side_book(x.side));
                            assert(ids_at(self.levels_of(x.side), x.price).contains(x.order_id));
                        }
                    }
                    // every still-resting id is still indexed, with side and price
                    assert forall|side: Side| #[trigger] self.side_to_index_ok(side) by {
                        assert forall|p: u64, j: int|
                            0 <= j < ids_at(self.levels_of(side), p).len() implies {
                            let id2 = #[trigger] ids_at(self.levels_of(side), p)[j];
                            &&& self.spec_contains(id2)
                            &&& self.spec_get(id2).side == side
                            &&& self.spec_get(id2).price == p
                        } by {
                            let id2 = ids_at(self.levels_of(side), p)[j];
                            let xold = ids_at(pre.levels_of(side), p);
                            if side == o.side && p == o.price {
                                let j0 = if j < w { j } else { j + 1 };
                                assert(new_ids[j] == xold[j0]);
                                assert(id2 == xold[j0]);
                                assert(pre.side_to_index_ok(side));
                                assert(pre.spec_contains(id2) && pre.spec_get(id2).side == side
                                    && pre.spec_get(id2).price == p);
                                assert(j0 != w);
                                assert(id2 != id);
                            } else {
                                if side == o.side {
                                    assert(ids_at(self.levels_of(side), p) == xold);
                                } else {
                                    assert(self.side_book(side) == pre.side_book(side));
                                }
                                assert(xold[j] == id2);
                                assert(pre.side_to_index_ok(side));
                                assert(pre.spec_contains(id2) && pre.spec_get(id2).side == side
                                    && pre.spec_get(id2).price == p);
                                assert(id2 != id);
                            }
                        }
                    }
                    assert(self.wf());
                    assert(Book::remove_effect(pre, id, *self));
                }
                Some(order)
            },
        }
    }

    /// Cancel the order with this id: remove it from both structures and
    /// mark it (`Open` turns `Cancelled`, `Partial` turns `Closed`).
    /// Cancelling an absent id is a no-op that returns nothing.
    pub fn cancel(&mut self, order_id: &u64) -> (r: Option<LimitOrder>)
        requires
            old(self).wf(),
        ensures
            final(self).wf(),
            !old(self).spec_contains(*order_id) ==> r == None::<LimitOrder> && *final(self) == *old(self),
            old(self).spec_contains(*order_id) ==> r == Some(
                old(self).spec_get(*order_id).spec_cancel(),
            ) && Book::remove_effect(*old(self), *order_id, *final(self)),
    {
        match self.remove(order_id) {
            Some(mut order) => {
                order.cancel();
                Some(order)
            },
            None => None,
        }
    }

    /// The resting orders of `side` in priority order: best price first,
    /// FIFO within a level.
    pub fn iter(&self, side: &Side) -> (r: Vec<LimitOrder>)
        requires
            self.wf(),
        ensures
            r@.len() == flat_ids(self.levels_of(*side)).len(),
            forall|k: int|
                0 <= k < r@.len() ==> #[trigger] r@[k] == self.spec_get(
                    flat_ids(self.levels_of(*side))[k],
                ) && self.spec_contains(r@[k].order_id) && r@[k].side == *side,
    {
        let ids = match side {
            Side::Ask => self.asks.iter(),
            Side::Bid => self.bids.iter(),
        };
        proof {
            lemma_flat_ids_membership(self.levels_of(*side));
            assert forall|k: int| 0 <= k < ids@.len() implies self.spec_contains(
                #[trigger] ids@[k],
            ) && self.spec_get(ids@[k]).side == *side by {
                assert(ids@.contains(ids@[k]));
                let i = choose|i: int|
                    0 <= i < self.levels_of(*side).len() && (
                    #[trigger] self.levels_of(*side)[i]).ids@.contains(ids@[k]);
                lemma_level_at(self.side_book(*side), i);
                assert(ids_at(self.levels_of(*side), self.levels_of(*side)[i].price).contains(
                    ids@[k],
                ));
                let j = choose|j: int|
                    0 <= j < self.levels_of(*side)[i].ids@.len() && self.levels_of(*side)[i].ids@[j]
                        == ids@[k];
                assert(self.side_to_index_ok(*side));
                assert(ids_at(self.levels_of(*side), self.levels_of(*side)[i].price)[j] == ids@[k]);
            }
        }
        let mut r: Vec<LimitOrder> = Vec::new();
        let mut k: usize = 0;
        while k < ids.len()
            invariant
                self.wf(),
                ids@ == flat_ids(self.levels_of(*side)),
                forall|m: int|
                    0 <= m < ids@.len() ==> self.spec_contains(#[trigger] ids@[m])
                        && self.spec_get(ids@[m]).side == *side,
                0 <= k <= ids@.len(),
                r@.len() == k,
                forall|m: int|
                    0 <= m < k ==> #[trigger] r@[m] == self.spec_get(ids@[m]),
            decreases ids@.len() - k,
        {
            match self.orders_by_id.find(ids[k]) {
                Some(pos) => {
                    r.push(self.orders_by_id.orders[pos].clone());
                },
                None => {
                    proof {
                        assert(false);
                    }
                },
            }
            k = k + 1;
        }
        r
    }

    /// A reference to the order at the priority head of `side`, or nothing
    /// if that side is empty.
    pub fn peek(&self, side: &Side) -> (r: Option<&LimitOrder>)
        requires
            self.wf(),
        ensures
            r == None::<&LimitOrder> <==> self.side_book(*side).spec_is_empty(),
            match r {
                Some(o) => {
                    &&& o.order_id == self.side_book(*side).spec_top_id()
                    &&& self.spec_contains(o.order_id)
                    &&& *o == self.spec_get(o.order_id)
                    &&& o.side == *side
                    &&& o.price == self.side_book(*side).spec_top_price()
                },
                None => true,
            },
    {
        let top = match side {
            Side::Ask => self.asks.top(),
            Side::Bid => self.bids.top(),
        };
        match top {
            None => None,
            Some(id) => {
                proof {
                    let sb = self.side_book(*side);
                    lemma_level_at(sb, 0);
                    assert(ids_at(sb.levels@, sb.spec_top_price())[0] == id);
                    assert(self.side_to_index_ok(*side));
                }
                match self.orders_by_id.find(id) {
                    Some(k) => Some(&self.orders_by_id.orders[k]),
                    None => {
                        proof {
                            assert(false);
                        }
                        None
                    },
                }
            },
        }
    }

    /// How `pop` changes a non-empty side: exactly a `remove` of the order
    /// at the priority head, whose FIFO loses its first element.
    pub open spec fn pop_effect(pre: Book, side: Side, post: Book) -> bool {
        let sb = pre.side_book(side);
        let tid = sb.spec_top_id();
        let o = pre.spec_get(tid);
        &&& o.order_id == tid
        &&& o.side == side
        &&& o.price == sb.spec_top_price()
        &&& Book::remove_effect(pre, tid, post)
        &&& ids_at(post.levels_of(side), sb.spec_top_price()) == ids_at(
            pre.levels_of(side),
            sb.spec_top_price(),
        ).drop_first()
    }

    /// Remove and return the order at the priority head of `side`, or
    /// nothing if that side is empty.
    pub fn pop(&mut self, side: &Side) -> (r: Option<LimitOrder>)
        requires
            old(self).wf(),
        ensures
            final(self).wf(),
            old(self).side_book(*side).spec_is_empty() ==> r == None::<LimitOrder> && *final(self)
                == *old(self),
            !old(self).side_book(*side).spec_is_empty() ==> r == Some(
                old(self).spec_get(old(self).side_book(*side).spec_top_id()),
            ) && Book::pop_effect(*old(self), *side, *final(self)),
    {
        let ghost pre = *self;
        let top = match side {
            Side::Ask => self.asks.top(),
            Side::Bid => self.bids.top(),
        };
        match top {
            None => None,
            Some(id) => {
                proof {
                    let sb = pre.side_book(*side);
                    lemma_level_at(sb, 0);
                    assert(ids_at(sb.levels@, sb.spec_top_price())[0] == id);
                    assert(pre.side_to_index_ok(*side));
                }
                let r = self.remove(&id);
                proof {
                    let sb = pre.side_book(*side);
                    let tp = sb.spec_top_price();
                    let old_ids = ids_at(pre.levels_of(*side), tp);
                    old_ids.index_of_first_ensures(id);
                    let w = old_ids.index_of_first(id).unwrap();
                    if w != 0 {
                        assert(old_ids[0] != id);
                        assert(false);
                    }
                    assert(old_ids.remove(0) =~= old_ids.drop_first());
                }
                r
            },
        }
    }

    /// How re-entering an updated record changes the book: both side books
    /// are untouched, the index record behind the id is replaced, and the
    /// side's volume moves by the change in remaining quantity.
    pub open spec fn update_effect(pre: Book, o: LimitOrder, post: Book) -> bool {
        let prev = pre.spec_get(o.order_id);
        &&& post.orders() == pre.orders().update(pre.orders_by_id.spec_index_of(o.order_id), o)
        &&& post.asks == pre.asks
        &&& post.bids == pre.bids
        &&& post.count_of(Side::Ask) == pre.count_of(Side::Ask)
        &&& post.count_of(Side::Bid) == pre.count_of(Side::Bid)
        &&& post.volume_of(o.side) == pre.volume_of(o.side) - prev.spec_remaining()
            + o.spec_remaining()
        &&& post.volume_of(o.side.spec_opposite()) == pre.volume_of(o.side.spec_opposite())
        &&& post.spec_contains(o.order_id)
        &&& post.spec_get(o.order_id) == o
        &&& forall|id2: u64|
            id2 != o.order_id ==> (#[trigger] post.spec_contains(id2) <==> pre.spec_contains(id2))
        &&& forall|id2: u64|
            id2 != o.order_id && pre.spec_contains(id2) ==> #[trigger] post.spec_get(id2)
                == pre.spec_get(id2)
    }

    /// Replace the record behind a resting order after a fill: the identity
    /// must be unchanged, the order still open and valid, and the fill may
    /// only have grown.  The side books are untouched, so priority and FIFO
    /// positions are kept.
    #[verifier::rlimit(100)]
    #[verifier::spinoff_prover]
    pub fn update_order(&mut self, order: LimitOrder)
        requires
            old(self).wf(),
            old(self).spec_contains(order.order_id),
            same_identity(order, old(self).spec_get(order.order_id)),
            order.filled >= old(self).spec_get(order.order_id).filled,
            order.valid(),
            !order.spec_is_closed(),
        ensures
            final(self).wf(),
            Book::update_effect(*old(self), order, *final(self)),
    {
        let ghost pre = *self;
        match self.orders_by_id.find(order.order_id) {
            Some(k) => {
                let ghost prev = pre.spec_get(order.order_id);
                let _ = self.orders_by_id.orders.remove(k);
                self.orders_by_id.orders.insert(k, order);
                proof {
                    assert(self.orders_by_id.orders@ =~= pre.orders().update(k as int, order));
                    lemma_index_update(pre.orders_by_id, self.orders_by_id, k as int, order);
                    lemma_isum_update(
                        pre.orders(),
                        |x: LimitOrder| if x.side == Side::Ask { 1int } else { 0int },
                        k as int,
                        order,
                    );
                    lemma_isum_update(
                        pre.orders(),
                        |x: LimitOrder| if x.side == Side::Bid { 1int } else { 0int },
                        k as int,
                        order,
                    );
                    lemma_isum_update(
                        pre.orders(),
                        |x: LimitOrder| if x.side == Side::Ask { x.spec_remaining() } else { 0int },
                        k as int,
                        order,
                    );
                    lemma_isum_update(
                        pre.orders(),
                        |x: LimitOrder| if x.side == Side::Bid { x.spec_remaining() } else { 0int },
                        k as int,
                        order,
                    );
                    assert forall|m: int| 0 <= m < self.orders().len() implies ids_at(
                        self.levels_of(self.orders()[m].side),
                        self.orders()[m].price,
                    ).contains((#[trigger] self.orders()[m]).order_id) by {
                        if m == k as int {
                            assert(ids_at(pre.levels_of(prev.side), prev.price).contains(
                                prev.order_id,
                            ));
                        } else {
                            assert(self.orders()[m] == pre.orders()[m]);
                            assert(ids_at(
                                pre.levels_of(pre.orders()[m].side),
                                pre.orders()[m].price,
                            ).contains(pre.orders()[m].order_id));
                        }
                    }
                    assert forall|side: Side| #[trigger] self.side_to_index_ok(side) by {
                        assert forall|p: u64, j: int|
                            0 <= j < ids_at(self.levels_of(side), p).len() implies {
                            let id2 = #[trigger] ids_at(self.levels_of(side), p)[j];
                            &&& self.spec_contains(id2)
                            &&& self.spec_get(id2).side == side
                            &&& self.spec_get(id2).price == p
                        } by {
                            let id2 = ids_at(self.levels_of(side), p)[j];
                            assert(pre.side_to_index_ok(side));
                            assert(ids_at(pre.levels_of(side), p)[j] == id2);
                            assert(pre.spec_contains(id2) && pre.spec_get(id2).side == side
                                && pre.spec_get(id2).price == p);
                        }
                    }
                    assert(self.wf());
                    assert(Book::update_effect(pre, order, *self));
                }
            },
            None => {
                proof {
                    assert(false);
                }
            },
        }
    }

    /// The two top-of-book prices, when both sides rest: `(ask, bid)`.
    pub fn spread(&self) -> (r: Option<(u64, u64)>)
        requires
            self.wf(),
        ensures
            r == None::<(u64, u64)> <==> self.asks.spec_is_empty() || self.bids.spec_is_empty(),
            !self.asks.spec_is_empty() && !self.bids.spec_is_empty() ==> r == Some(
                (self.asks.spec_top_price(), self.bids.spec_top_price()),
            ),
    {
        if self.asks.levels.len() > 0 && self.bids.levels.len() > 0 {
            Some((self.asks.levels[0].price, self.bids.levels[0].price))
        } else {
            None
        }
    }

    /// The top-of-book prices of the two sides, each independently
    /// optional: `(ask, bid)`.
    pub fn spread_option(&self) -> (r: (Option<u64>, Option<u64>))
        requires
            self.wf(),
        ensures
            r.0 == if self.asks.spec_is_empty() {
                None::<u64>
            } else {
                Some(self.asks.spec_top_price())
            },
            r.1 == if self.bids.spec_is_empty() {
                None::<u64>
            } else {
                Some(self.bids.spec_top_price())
            },
    {
        (
            if self.asks.levels.len() > 0 {
                Some(self.asks.levels[0].price)
            } else {
                None
            },
            if self.bids.levels.len() > 0 {
                Some(self.bids.levels[0].price)
            } else {
                None
            },
        )
    }

    /// The number of orders resting on each side: `(asks, bids)`.  By the
    /// book invariant this equals both the sum of the level sizes and the
    /// per-side count of indexed records.
    pub fn len(&self) -> (r: (usize, usize))
        requires
            self.wf(),
        ensures
            r.0 == self.count_of(Side::Ask),
            r.1 == self.count_of(Side::Bid),
            r.0 == total_ids(self.levels_of(Side::Ask)),
            r.1 == total_ids(self.levels_of(Side::Bid)),
    {
        let ghost fa = |x: LimitOrder| if x.side == Side::Ask { 1int } else { 0int };
        let ghost fb = |x: LimitOrder| if x.side == Side::Bid { 1int } else { 0int };
        let n = self.orders_by_id.orders.len();
        let mut a: usize = 0;
        let mut b: usize = 0;
        let mut i: usize = 0;
        while i < n
            invariant
                self.wf(),
                n == self.orders().len(),
                0 <= i <= n,
                a <= i,
                b <= i,
                a == seq_isum(self.orders().take(i as int), fa),
                b == seq_isum(self.orders().take(i as int), fb),
                fa == (|x: LimitOrder| if x.side == Side::Ask { 1int } else { 0int }),
                fb == (|x: LimitOrder| if x.side == Side::Bid { 1int } else { 0int }),
            decreases n - i,
        {
            proof {
                lemma_isum_take_step(self.orders(), fa, i as int);
                lemma_isum_take_step(self.orders(), fb, i as int);
            }
            match self.orders_by_id.orders[i].side {
                Side::Ask => {
                    a = a + 1;
                },
                Side::Bid => {
                    b = b + 1;
                },
            }
            i = i + 1;
        }
        proof {
            assert(self.orders().take(n as int) =~= self.orders());
        }
        (a, b)
    }

    /// The total remaining quantity resting on each side: `(asks, bids)`.
    pub fn volume(&self) -> (r: (u64, u64))
        requires
            self.wf(),
        ensures
            r.0 == self.volume_of(Side::Ask),
            r.1 == self.volume_of(Side::Bid),
    {
        let ghost fa = |x: LimitOrder| if x.side == Side::Ask { x.spec_remaining() } else { 0int };
        let ghost fb = |x: LimitOrder| if x.side == Side::Bid { x.spec_remaining() } else { 0int };
        proof {
            assert forall|k: int| 0 <= k < self.orders().len() implies #[trigger] fa(
                self.orders()[k],
            ) >= 0 && fb(self.orders()[k]) >= 0 by {
                assert(self.orders()[k].valid());
            }
        }
        let n = self.orders_by_id.orders.len();
        let mut a: u64 = 0;
        let mut b: u64 = 0;
        let mut i: usize = 0;
        while i < n
            invariant
                self.wf(),
                n == self.orders().len(),
                0 <= i <= n,
                a == seq_isum(self.orders().take(i as int), fa),
                b == seq_isum(self.orders().take(i as int), fb),
                fa == (|x: LimitOrder| if x.side == Side::Ask { x.spec_remaining() } else { 0int }),
                fb == (|x: LimitOrder| if x.side == Side::Bid { x.spec_remaining() } else { 0int }),
            decreases n - i,
        {
            proof {
                lemma_isum_take_step(self.orders(), fa, i as int);
                lemma_isum_take_step(self.orders(), fb, i as int);
                // the partial sums stay within the total, which fits in u64
                lemma_isum_split(self.orders(), fa, i as int + 1);
                lemma_isum_split(self.orders(), fb, i as int + 1);
                assert forall|k: int| 0 <= k < self.orders().skip(i as int + 1).len() implies (
                #[trigger] fa(self.orders().skip(i as int + 1)[k])) >= 0 && fb(
                    self.orders().skip(i as int + 1)[k],
                ) >= 0 by {
                    assert(self.orders().skip(i as int + 1)[k] == self.orders()[k + i + 1]);
                    assert(self.orders()[k + i + 1].valid());
                }
                lemma_isum_nonneg(self.orders().skip(i as int + 1), fa);
                lemma_isum_nonneg(self.orders().skip(i as int + 1), fb);
                lemma_isum_nonneg(self.orders().take(i as int), fa);
                lemma_isum_nonneg(self.orders().take(i as int), fb);
                assert(seq_isum(self.orders().take(i as int + 1), fa) <= self.volume_of(Side::Ask));
                assert(seq_isum(self.orders().take(i as int + 1), fb) <= self.volume_of(Side::Bid));
            }
            let o = &self.orders_by_id.orders[i];
            match o.side {
                Side::Ask => {
                    a = a + o.remaining();
                },
                Side::Bid => {
                    b = b + o.remaining();
                },
            }
            i = i + 1;
        }
        proof {
            assert(self.orders().take(n as int) =~= self.orders());
        }
        (a, b)
    }

    /// Drop all state: the book returns to the initial empty state.
    pub fn flush(&mut self)
        ensures
            final(self).wf(),
            final(self).spec_is_empty(),
            final(self).uncrossed(),
            final(self).count_of(Side::Ask) == 0,
            final(self).count_of(Side::Bid) == 0,
            final(self).volume_of(Side::Ask) == 0,
            final(self).volume_of(Side::Bid) == 0,
            forall|id: u64| !final(self).spec_contains(id),
            forall|p: u64| ids_at(final(self).levels_of(Side::Ask), p) == Seq::<u64>::empty(),
            forall|p: u64| ids_at(final(self).levels_of(Side::Bid), p) == Seq::<u64>::empty(),
    {
        self.asks = SideBook::new(Side::Ask);
        self.bids = SideBook::new(Side::Bid);
        self.orders_by_id = OrdersById { orders: Vec::new() };
    }

    /// Whether the book holds no orders at all.
    pub fn is_empty(&self) -> (r: bool)
        requires
            self.wf(),
        ensures
            r == (self.count_of(Side::Ask) == 0 && self.count_of(Side::Bid) == 0),
    {
        let (a, b) = self.len();
        a == 0 && b == 0
    }

    /// No resting ask and bid may cross: every resting ask is strictly
    /// dearer than every resting bid.  The matcher (not the book itself)
    /// maintains this.
    pub open spec fn uncrossed(self) -> bool {
        forall|i: int, j: int|
            0 <= i < self.orders().len() && 0 <= j < self.orders().len() && (
            #[trigger] self.orders()[i]).side == Side::Ask && (#[trigger] self.orders()[j]).side
                == Side::Bid ==> self.orders()[i].price > self.orders()[j].price
    }
}

/// A pairwise property survives `remove_all`.
pub proof fn lemma_remove_all_pairwise(
    s: Seq<OrderIndex>,
    item: OrderIndex,
    p: spec_fn(OrderIndex, OrderIndex) -> bool,
)
    requires
        forall|a: int, b: int| 0 <= a < b < s.len() ==> #[trigger] p(s[a], s[b]),
    ensures
        forall|a: int, b: int|
            0 <= a < b < remove_all(s, item).len() ==> #[trigger] p(
                remove_all(s, item)[a],
                remove_all(s, item)[b],
            ),
    decreases s.len(),
{
    if s.len() == 0 {
    } else {
        assert forall|a: int, b: int| 0 <= a < b < s.drop_first().len() implies #[trigger] p(
            s.drop_first()[a],
            s.drop_first()[b],
        ) by {
            assert(p(s[a + 1], s[b + 1]));
        }
        lemma_remove_all_pairwise(s.drop_first(), item, p);
        let rest = remove_all(s.drop_first(), item);
        if s[0] == item {
        } else {
            let r = remove_all(s, item);
            assert(r == seq![s[0]] + rest);
            crate::order::lemma_remove_all_membership(s.drop_first(), item);
            assert forall|a: int, b: int| 0 <= a < b < r.len() implies #[trigger] p(
                r[a],
                r[b],
            ) by {
                if a == 0 {
                    assert(r[b] == rest[b - 1]);
                    assert(rest.contains(rest[b - 1]));
                    let w = choose|w: int|
                        0 <= w < s.drop_first().len() && s.drop_first()[w] == rest[b - 1];
                    assert(p(s[0], s[w + 1]));
                } else {
                    assert(r[a] == rest[a - 1]);
                    assert(r[b] == rest[b - 1]);
                    assert(p(rest[a - 1], rest[b - 1]));
                }
            }
        }
    }
}

/// A queue-driven book for one symbol: one priority queue of order keys
/// per side, over a shared order index.  The queue-walking [`crate::matcher::Matcher`]
/// drives this book; the level-based [`Book`] is driven by the crossing
/// loop of [`crate::engine::MatchingEngine`].
#[derive(Debug)]
pub struct Books {
    pub order_symbol: String,
    pub bids: PriceTimePriorityOrderQueue,
    pub asks: PriceTimePriorityOrderQueue,
    pub orders: OrdersById,
}

impl Books {
    /// The queued keys of one side, in priority order.
    pub open spec fn queue_of(self, side: Side) -> Seq<OrderIndex> {
        match side {
            Side::Bid => self.bids.items@,
            Side::Ask => self.asks.items@,
        }
    }

    /// Well-formedness: both queues are sorted and hold the keys of their
    /// own side only, with no id twice; every queued key is the key of an
    /// indexed order, and every indexed order is queued on its side; all
    /// orders carry a positive quantity.
    pub open spec fn wf(self) -> bool {
        &&& self.bids.wf()
        &&& self.asks.wf()
        &&& self.orders.wf()
        &&& forall|k: int|
            0 <= k < self.bids.items@.len() ==> (#[trigger] self.bids.items@[k]).side == Side::Bid
        &&& forall|k: int|
            0 <= k < self.asks.items@.len() ==> (#[trigger] self.asks.items@[k]).side == Side::Ask
        &&& forall|k: int|
            0 <= k < self.bids.items@.len() ==> {
                let ix = #[trigger] self.bids.items@[k];
                self.orders.spec_contains(ix.order_id) && key_of(self.orders.spec_get(ix.order_id))
                    == ix
            }
        &&& forall|k: int|
            0 <= k < self.asks.items@.len() ==> {
                let ix = #[trigger] self.asks.items@[k];
                self.orders.spec_contains(ix.order_id) && key_of(self.orders.spec_get(ix.order_id))
                    == ix
            }
        &&& forall|a: int, b: int|
            0 <= a < b < self.bids.items@.len() ==> (#[trigger] self.bids.items@[a]).order_id != (
            #[trigger] self.bids.items@[b]).order_id
        &&& forall|a: int, b: int|
            0 <= a < b < self.asks.items@.len() ==> (#[trigger] self.asks.items@[a]).order_id != (
            #[trigger] self.asks.items@[b]).order_id
        &&& forall|m: int|
            0 <= m < self.orders.orders@.len() ==> self.queue_of(
                (#[trigger] self.orders.orders@[m]).side,
            ).contains(key_of(self.orders.orders@[m]))
        &&& forall|m: int|
            0 <= m < self.orders.orders@.len() ==> (#[trigger] self.orders.orders@[m]).quantity > 0
    }

    /// An empty book for one symbol.
    pub fn new(order_symbol: String) -> (r: Books)
        ensures
            r.wf(),
            r.orders.orders@.len() == 0,
            r.queue_of(Side::Ask).len() == 0,
            r.queue_of(Side::Bid).len() == 0,
            forall|id: u64| !r.orders.spec_contains(id),
    {
        Books {
            order_symbol,
            bids: PriceTimePriorityOrderQueue::with_capacity(1000),
            asks: PriceTimePriorityOrderQueue::with_capacity(1000),
            orders: OrdersById { orders: Vec::with_capacity(1000) },
        }
    }

    /// Place an order: it joins the index and its side's queue at its
    /// priority position.  The id must be fresh and the quantity positive.
    #[verifier::rlimit(100)]
    #[verifier::spinoff_prover]
    pub fn place(&mut self, order: LimitOrder) -> (r: Result<(), ()>)
        requires
            old(self).wf(),
            !old(self).orders.spec_contains(order.order_id),
            order.quantity > 0,
        ensures
            r == Ok::<(), ()>(()),
            final(self).wf(),
            final(self).order_symbol == old(self).order_symbol,
            final(self).orders.orders@ == old(self).orders.orders@.push(order),
            final(self).orders.spec_contains(order.order_id),
            final(self).orders.spec_get(order.order_id) == order,
            forall|id: u64|
                id != order.order_id ==> (#[trigger] final(self).orders.spec_contains(id)
                    <==> old(self).orders.spec_contains(id)),
            forall|id: u64|
                id != order.order_id && old(self).orders.spec_contains(id) ==> #[trigger] final(self).orders.spec_get(id) == old(self).orders.spec_get(id),
            final(self).queue_of(order.side.spec_opposite()) == old(self).queue_of(
                order.side.spec_opposite(),
            ),
            forall|x: OrderIndex|
                #[trigger] final(self).queue_of(order.side).contains(x) <==> (old(self).queue_of(
                    order.side,
                ).contains(x) || x == key_of(order)),
    {
        let ghost pre = *self;
        let key = OrderIndex::from(order.clone());
        proof {
            assert(key == key_of(order));
            // the fresh key ranks the same side as its queue
            match order.side {
                Side::Bid => {
                    if pre.bids.items@.len() > 0 {
                        assert(pre.bids.items@[0].side == Side::Bid);
                    }
                },
                Side::Ask => {
                    if pre.asks.items@.len() > 0 {
                        assert(pre.asks.items@[0].side == Side::Ask);
                    }
                },
            }
        }
        self.orders.orders.push(order.clone());
        proof {
            lemma_index_push(pre.orders, self.orders, order);
        }
        match order.side {
            Side::Bid => self.bids.push(key),
            Side::Ask => self.asks.push(key),
        }
        proof {
            let post = *self;
            let qpre = pre.queue_of(order.side);
            let qpost = post.queue_of(order.side);
            let i = choose|i: int| 0 <= i <= qpre.len() && qpost == qpre.insert(i, key);
            qpre.insert_ensures(i, key);
            // sides of the queued keys
            assert forall|k: int|
                0 <= k < qpost.len() implies (#[trigger] qpost[k]).side == order.side by {
                if k != i {
                    let k0 = if k < i {
                        k
                    } else {
                        k - 1
                    };
                    assert(qpost[k] == qpre[k0]);
                }
            }
            // every queued key is the key of an indexed order
            assert forall|k: int| 0 <= k < qpost.len() implies {
                let ix = #[trigger] qpost[k];
                post.orders.spec_contains(ix.order_id) && key_of(post.orders.spec_get(ix.order_id))
                    == ix
            } by {
                if k == i {
                    assert(qpost[k] == key);
                } else {
                    let k0 = if k < i {
                        k
                    } else {
                        k - 1
                    };
                    let ix = qpre[k0];
                    assert(pre.orders.spec_contains(ix.order_id));
                    assert(ix.order_id != order.order_id);
                }
            }
            // id uniqueness in the queue
            assert forall|a: int, b: int|
                0 <= a < b < qpost.len() implies (#[trigger] qpost[a]).order_id != (
            #[trigger] qpost[b]).order_id by {
                let a0 = if a < i {
                    a
                } else {
                    a - 1
                };
                let b0 = if b < i {
                    b
                } else {
                    b - 1
                };
                if a == i {
                    assert(qpost[b] == qpre[b0]);
                    assert(qpre[b0].order_id != order.order_id);
                } else if b == i {
                    assert(qpost[a] == qpre[a0]);
                    assert(qpre[a0].order_id != order.order_id);
                } else {
                    assert(qpost[a] == qpre[a0] && qpost[b] == qpre[b0]);
                }
            }
            // every indexed order is still queued on its side
            assert forall|m: int|
                0 <= m < post.orders.orders@.len() implies post.queue_of(
                (#[trigger] post.orders.orders@[m]).side,
            ).contains(key_of(post.orders.orders@[m])) by {
                if m < pre.orders.orders@.len() {
                    let o = pre.orders.orders@[m];
                    assert(post.orders.orders@[m] == o);
                    assert(pre.queue_of(o.side).contains(key_of(o)));
                    if o.side == order.side {
                    } else {
                        assert(post.queue_of(o.side) == pre.queue_of(o.side));
                    }
                } else {
                    assert(post.orders.orders@[m] == order);
                    assert(qpost.contains(key));
                }
            }
            assert(post.wf());
        }
        Ok(())
    }

    /// Cancel the order with this id: it leaves the index and its side's
    /// queue.  Cancelling an unknown id is a no-op; both ways the call
    /// reports success.
    #[verifier::rlimit(100)]
    #[verifier::spinoff_prover]
    pub fn cancel(&mut self, order_id: u64) -> (r: Result<(), ()>)
        requires
            old(self).wf(),
        ensures
            r == Ok::<(), ()>(()),
            final(self).wf(),
            !old(self).orders.spec_contains(order_id) ==> *final(self) == *old(self),
            old(self).orders.spec_contains(order_id) ==> {
                let o = old(self).orders.spec_get(order_id);
                &&& !final(self).orders.spec_contains(order_id)
                &&& forall|id: u64|
                    id != order_id ==> (#[trigger] final(self).orders.spec_contains(id)
                        <==> old(self).orders.spec_contains(id))
                &&& forall|id: u64|
                    id != order_id && old(self).orders.spec_contains(id) ==> #[trigger] final(self).orders.spec_get(id) == old(self).orders.spec_get(id)
                &&& final(self).queue_of(o.side.spec_opposite()) == old(self).queue_of(
                    o.side.spec_opposite(),
                )
                &&& forall|x: OrderIndex|
                    #[trigger] final(self).queue_of(o.side).contains(x) <==> (old(self).queue_of(
                        o.side,
                    ).contains(x) && x != key_of(o))
            },
    {
        let ghost pre = *self;
        match self.orders.find(order_id) {
            None => Ok(()),
            Some(k) => {
                let order = self.orders.orders.remove(k);
                proof {
                    lemma_index_remove(pre.orders, self.orders, k as int);
                }
                let key = OrderIndex::from(order);
                let ghost o = pre.orders.spec_get(order_id);
                match key.side {
                    Side::Bid => {
                        let _ = self.bids.remove(key);
                    },
                    Side::Ask => {
                        let _ = self.asks.remove(key);
                    },
                }
                proof {
                    self.books_cancel_restore(pre, o, key, k as int);
                }
                Ok(())
            },
        }
    }

    /// The resting order at the head of the ask queue, if any.
    pub fn peek_top_ask(&self) -> (r: Option<&LimitOrder>)
        requires
            self.wf(),
        ensures
            r == None::<&LimitOrder> <==> self.queue_of(Side::Ask).len() == 0,
            match r {
                Some(o) => {
                    &&& *o == self.orders.spec_get(self.queue_of(Side::Ask)[0].order_id)
                    &&& key_of(*o) == self.queue_of(Side::Ask)[0]
                    &&& self.orders.spec_contains(o.order_id)
                    &&& o.side == Side::Ask
                },
                None => true,
            },
    {
        let key = match self.asks.peek() {
            None => {
                return None;
            },
            Some(k) => *k,
        };
        match self.orders.find(key.order_id) {
            Some(k) => Some(&self.orders.orders[k]),
            None => {
                proof {
                    assert(false);
                }
                None
            },
        }
    }

    /// The resting order at the head of the bid queue, if any.
    pub fn peek_top_bid(&self) -> (r: Option<&LimitOrder>)
        requires
            self.wf(),
        ensures
            r == None::<&LimitOrder> <==> self.queue_of(Side::Bid).len() == 0,
            match r {
                Some(o) => {
                    &&& *o == self.orders.spec_get(self.queue_of(Side::Bid)[0].order_id)
                    &&& key_of(*o) == self.queue_of(Side::Bid)[0]
                    &&& self.orders.spec_contains(o.order_id)
                    &&& o.side == Side::Bid
                },
                None => true,
            },
    {
        let key = match self.bids.peek() {
            None => {
                return None;
            },
            Some(k) => *k,
        };
        match self.orders.find(key.order_id) {
            Some(k) => Some(&self.orders.orders[k]),
            None => {
                proof {
                    assert(false);
                }
                None
            },
        }
    }

    /// Replace the quantity of the order with this id, if it rests here.
    /// The new quantity must stay positive; price, time, and side are
    /// untouched, so the queues do not move.
    pub fn modify_quantity(&mut self, orderid: u64, quantity: u64)
        requires
            old(self).wf(),
            quantity > 0,
        ensures
            final(self).wf(),
            final(self).bids == old(self).bids,
            final(self).asks == old(self).asks,
            !old(self).orders.spec_contains(orderid) ==> *final(self) == *old(self),
            old(self).orders.spec_contains(orderid) ==> {
                &&& final(self).orders.spec_contains(orderid)
                &&& final(self).orders.spec_get(orderid) == (LimitOrder {
                    quantity,
                    ..old(self).orders.spec_get(orderid)
                })
                &&& forall|id: u64|
                    id != orderid ==> (#[trigger] final(self).orders.spec_contains(id)
                        <==> old(self).orders.spec_contains(id))
                &&& forall|id: u64|
                    id != orderid && old(self).orders.spec_contains(id) ==> #[trigger] final(self).orders.spec_get(id) == old(self).orders.spec_get(id)
            },
    {
        let ghost pre = *self;
        match self.orders.find(orderid) {
            None => {},
            Some(k) => {
                let mut order = self.orders.orders.remove(k);
                order.quantity = quantity;
                self.orders.orders.insert(k, order);
                proof {
                    let updated = self.orders.orders@[k as int];
                    assert(self.orders.orders@ =~= pre.orders.orders@.update(k as int, updated));
                    lemma_index_update(pre.orders, self.orders, k as int, updated);
                    assert forall|m: int|
                        0 <= m < self.orders.orders@.len() implies self.queue_of(
                        (#[trigger] self.orders.orders@[m]).side,
                    ).contains(key_of(self.orders.orders@[m])) by {
                        let x = pre.orders.orders@[m];
                        assert(pre.queue_of(x.side).contains(key_of(x)));
                        assert(key_of(self.orders.orders@[m]) == key_of(x));
                        assert(self.orders.orders@[m].side == x.side);
                    }
                    assert forall|q: int|
                        0 <= q < self.bids.items@.len() implies {
                        let ix = #[trigger] self.bids.items@[q];
                        self.orders.spec_contains(ix.order_id) && key_of(
                            self.orders.spec_get(ix.order_id),
                        ) == ix
                    } by {
                        let ix = pre.bids.items@[q];
                        if ix.order_id == orderid {
                            assert(key_of(self.orders.spec_get(orderid)) == key_of(
                                pre.orders.spec_get(orderid),
                            ));
                        }
                    }
                    assert forall|q: int|
                        0 <= q < self.asks.items@.len() implies {
                        let ix = #[trigger] self.asks.items@[q];
                        self.orders.spec_contains(ix.order_id) && key_of(
                            self.orders.spec_get(ix.order_id),
                        ) == ix
                    } by {
                        let ix = pre.asks.items@[q];
                        if ix.order_id == orderid {
                            assert(key_of(self.orders.spec_get(orderid)) == key_of(
                                pre.orders.spec_get(orderid),
                            ));
                        }
                    }
                    assert(self.wf());
                }
            },
        }
    }

    /// Remove and return the order at the head of the bid queue, if any.
    pub fn pop_top_bid(&mut self) -> (r: Option<LimitOrder>)
        requires
            old(self).wf(),
        ensures
            final(self).wf(),
            r == None::<LimitOrder> <==> old(self).queue_of(Side::Bid).len() == 0,
            old(self).queue_of(Side::Bid).len() == 0 ==> *final(self) == *old(self),
            old(self).queue_of(Side::Bid).len() > 0 ==> {
                let o = old(self).orders.spec_get(old(self).queue_of(Side::Bid)[0].order_id);
                &&& r == Some(o)
                &&& final(self).queue_of(Side::Bid) == old(self).queue_of(Side::Bid).drop_first()
                &&& final(self).queue_of(Side::Ask) == old(self).queue_of(Side::Ask)
                &&& !final(self).orders.spec_contains(o.order_id)
                &&& forall|id: u64|
                    id != o.order_id ==> (#[trigger] final(self).orders.spec_contains(id)
                        <==> old(self).orders.spec_contains(id))
                &&& forall|id: u64|
                    id != o.order_id && old(self).orders.spec_contains(id) ==> #[trigger] final(self).orders.spec_get(id) == old(self).orders.spec_get(id)
            },
    {
        let ghost pre = *self;
        let key = match self.bids.pop() {
            None => {
                return None;
            },
            Some(k) => k,
        };
        match self.orders.find(key.order_id) {
            Some(k) => {
                let order = self.orders.orders.remove(k);
                proof {
                    lemma_index_remove(pre.orders, self.orders, k as int);
                    let post = *self;
                    self.books_pop_restore(pre, key, k as int, Side::Bid);
                }
                Some(order)
            },
            None => {
                proof {
                    assert(false);
                }
                None
            },
        }
    }

    /// Remove and return the order at the head of the ask queue, if any.
    pub fn pop_top_ask(&mut self) -> (r: Option<LimitOrder>)
        requires
            old(self).wf(),
        ensures
            final(self).wf(),
            r == None::<LimitOrder> <==> old(self).queue_of(Side::Ask).len() == 0,
            old(self).queue_of(Side::Ask).len() == 0 ==> *final(self) == *old(self),
            old(self).queue_of(Side::Ask).len() > 0 ==> {
                let o = old(self).orders.spec_get(old(self).queue_of(Side::Ask)[0].order_id);
                &&& r == Some(o)
                &&& final(self).queue_of(Side::Ask) == old(self).queue_of(Side::Ask).drop_first()
                &&& final(self).queue_of(Side::Bid) == old(self).queue_of(Side::Bid)
                &&& !final(self).orders.spec_contains(o.order_id)
                &&& forall|id: u64|
                    id != o.order_id ==> (#[trigger] final(self).orders.spec_contains(id)
                        <==> old(self).orders.spec_contains(id))
                &&& forall|id: u64|
                    id != o.order_id && old(self).orders.spec_contains(id) ==> #[trigger] final(self).orders.spec_get(id) == old(self).orders.spec_get(id)
            },
    {
        let ghost pre = *self;
        let key = match self.asks.pop() {
            None => {
                return None;
            },
            Some(k) => k,
        };
        match self.orders.find(key.order_id) {
            Some(k) => {
                let order = self.orders.orders.remove(k);
                proof {
                    lemma_index_remove(pre.orders, self.orders, k as int);
                    self.books_pop_restore(pre, key, k as int, Side::Ask);
                }
                Some(order)
            },
            None => {
                proof {
                    assert(false);
                }
                None
            },
        }
    }

    /// Re-establishing well-formedness after a cancel: the cancelled key
    /// left its queue and its order left the index; everything else still
    /// maps.
    #[verifier::rlimit(100)]
    #[verifier::spinoff_prover]
    proof fn books_cancel_restore(&self, pre: Books, o: LimitOrder, key: OrderIndex, k: int)
        requires
            pre.wf(),
            0 <= k < pre.orders.orders@.len(),
            pre.orders.orders@[k] == o,
            pre.orders.spec_index_of(o.order_id) == k,
            key == key_of(o),
            self.orders.orders@ == pre.orders.orders@.remove(k),
            self.queue_of(o.side) == remove_all(pre.queue_of(o.side), key),
            self.queue_of(o.side.spec_opposite()) == pre.queue_of(o.side.spec_opposite()),
            self.bids.wf(),
            self.asks.wf(),
            forall|x: OrderIndex|
                #[trigger] self.queue_of(o.side).contains(x) <==> (pre.queue_of(o.side).contains(x)
                    && x != key),
            self.order_symbol == pre.order_symbol,
        ensures
            self.wf(),
    {
        lemma_index_remove(pre.orders, self.orders, k);
        let ghost p = |x: OrderIndex, y: OrderIndex| x.order_id != y.order_id;
        let qpre = pre.queue_of(o.side);
        let qpost = self.queue_of(o.side);
        assert forall|a: int, b: int| 0 <= a < b < qpre.len() implies #[trigger] p(
            qpre[a],
            qpre[b],
        ) by {
            assert(qpre[a].order_id != qpre[b].order_id);
        }
        lemma_remove_all_pairwise(qpre, key, p);
        assert forall|a: int, b: int| 0 <= a < b < qpost.len() implies qpost[a].order_id
            != qpost[b].order_id by {
            assert(p(remove_all(qpre, key)[a], remove_all(qpre, key)[b]));
        }
        // sides and the key-to-order mapping, for the shrunken queue
        assert forall|m: int|
            0 <= m < qpost.len() implies (#[trigger] qpost[m]).side == o.side && {
            let ix = qpost[m];
            self.orders.spec_contains(ix.order_id) && key_of(self.orders.spec_get(ix.order_id))
                == ix
        } by {
            let ix = qpost[m];
            assert(qpost.contains(ix));
            assert(qpre.contains(ix) && ix != key);
            let w = choose|w: int| 0 <= w < qpre.len() && qpre[w] == ix;
            assert(pre.orders.spec_contains(ix.order_id) && key_of(
                pre.orders.spec_get(ix.order_id),
            ) == ix);
            if ix.order_id == o.order_id {
                assert(ix == key);
                assert(false);
            }
        }
        // the untouched queue still maps into the shrunken index
        assert forall|m: int|
            0 <= m < self.queue_of(o.side.spec_opposite()).len() implies {
            let ix = #[trigger] self.queue_of(o.side.spec_opposite())[m];
            self.orders.spec_contains(ix.order_id) && key_of(self.orders.spec_get(ix.order_id))
                == ix
        } by {
            let ix = pre.queue_of(o.side.spec_opposite())[m];
            assert(pre.orders.spec_contains(ix.order_id) && key_of(
                pre.orders.spec_get(ix.order_id),
            ) == ix);
            if ix.order_id == o.order_id {
                assert(key_of(o) == ix);
                assert(ix.side == o.side);
                assert(ix.side == o.side.spec_opposite());
                assert(false);
            }
        }
        // every remaining order is still queued
        assert forall|m: int|
            0 <= m < self.orders.orders@.len() implies self.queue_of(
            (#[trigger] self.orders.orders@[m]).side,
        ).contains(key_of(self.orders.orders@[m])) by {
            let m0 = if m < k {
                m
            } else {
                m + 1
            };
            let x = pre.orders.orders@[m0];
            assert(self.orders.orders@[m] == x);
            assert(x.order_id != o.order_id);
            assert(pre.queue_of(x.side).contains(key_of(x)));
            if x.side == o.side {
                assert(key_of(x).order_id == x.order_id);
                assert(key_of(x) != key);
            } else {
                assert(self.queue_of(x.side) == pre.queue_of(x.side));
            }
        }
    }

    /// Re-establishing well-formedness after a pop: the head key left its
    /// queue and its order left the index; everything else still maps.
    #[verifier::rlimit(100)]
    #[verifier::spinoff_prover]
    proof fn books_pop_restore(&self, pre: Books, key: OrderIndex, k: int, side: Side)
        requires
            pre.wf(),
            pre.queue_of(side).len() > 0,
            key == pre.queue_of(side)[0],
            0 <= k < pre.orders.orders@.len(),
            pre.orders.orders@[k].order_id == key.order_id,
            pre.orders.spec_index_of(key.order_id) == k,
            self.orders.orders@ == pre.orders.orders@.remove(k),
            self.queue_of(side) == pre.queue_of(side).drop_first(),
            self.queue_of(side.spec_opposite()) == pre.queue_of(side.spec_opposite()),
            self.bids.wf(),
            self.asks.wf(),
            self.order_symbol == pre.order_symbol,
        ensures
            self.wf(),
    {
        lemma_index_remove(pre.orders, self.orders, k);
        let qpre = pre.queue_of(side);
        let qpost = self.queue_of(side);
        assert forall|m: int|
            0 <= m < qpost.len() implies (#[trigger] qpost[m]).side == side && {
            let ix = qpost[m];
            self.orders.spec_contains(ix.order_id) && key_of(self.orders.spec_get(ix.order_id))
                == ix
        } by {
            assert(qpost[m] == qpre[m + 1]);
            let ix = qpre[m + 1];
            assert(pre.orders.spec_contains(ix.order_id) && key_of(
                pre.orders.spec_get(ix.order_id),
            ) == ix);
            assert(ix.order_id != key.order_id);
        }
        assert forall|m: int|
            0 <= m < self.queue_of(side.spec_opposite()).len() implies {
            let ix = #[trigger] self.queue_of(side.spec_opposite())[m];
            self.orders.spec_contains(ix.order_id) && key_of(self.orders.spec_get(ix.order_id))
                == ix && ix.side == side.spec_opposite()
        } by {
            let ix = pre.queue_of(side.spec_opposite())[m];
            assert(pre.orders.spec_contains(ix.order_id) && key_of(
                pre.orders.spec_get(ix.order_id),
            ) == ix);
            if ix.order_id == key.order_id {
                assert(key_of(pre.orders.spec_get(key.order_id)).side == side.spec_opposite());
                assert(key.side == side);
                assert(false);
            }
        }
        assert forall|m: int|
            0 <= m < self.orders.orders@.len() implies self.queue_of(
            (#[trigger] self.orders.orders@[m]).side,
        ).contains(key_of(self.orders.orders@[m])) by {
            let m0 = if m < k {
                m
            } else {
                m + 1
            };
            let x = pre.orders.orders@[m0];
            assert(self.orders.orders@[m] == x);
            assert(x.order_id != key.order_id);
            assert(pre.queue_of(x.side).contains(key_of(x)));
            if x.side == side {
                let w = choose|w: int| 0 <= w < qpre.len() && qpre[w] == key_of(x);
                if w == 0 {
                    assert(key_of(x).order_id == key.order_id);
                    assert(false);
                }
                assert(qpost[w - 1] == key_of(x));
                assert(qpost.contains(key_of(x)));
            } else {
                assert(self.queue_of(x.side) == pre.queue_of(x.side));
            }
        }
    }
}

} // verus!
