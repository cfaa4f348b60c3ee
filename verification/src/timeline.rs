//! The order in which the trades of a ledger took place.
//!
//! A ledger need not be stored in order of time. Trades are replayed by
//! timestamp; trades with the same timestamp, in the order in which they
//! were stored.

use vstd::prelude::*;
use crate::ledger::Ledger;
use crate::record::TradeView;

verus! {

/// Whether the trade at position `a` takes place before the one at `b`:
/// its timestamp is earlier, or the same and it is stored first.
pub open spec fn precedes(trades: Seq<TradeView>, a: int, b: int) -> bool {
    trades[a].timestamp < trades[b].timestamp || (trades[a].timestamp == trades[b].timestamp && a
        < b)
}

/// Where a trade with the timestamp `stamp` goes into `order`, a run of
/// positions in order of time: behind the last one that is not later.
pub open spec fn slot(trades: Seq<TradeView>, order: Seq<int>, stamp: int) -> int
    decreases order.len(),
{
    if order.len() == 0 {
        0
    } else if trades[order.last()].timestamp <= stamp {
        order.len() as int
    } else {
        slot(trades, order.drop_last(), stamp)
    }
}

/// The positions of the trades, arranged in order of time.
pub open spec fn time_order(trades: Seq<TradeView>) -> Seq<int>
    decreases trades.len(),
{
    if trades.len() == 0 {
        Seq::<int>::empty()
    } else {
        let before = time_order(trades.drop_last());
        before.insert(slot(trades, before, trades.last().timestamp as int), trades.len() - 1)
    }
}

/// The trades, arranged in order of time.
pub open spec fn chronological(trades: Seq<TradeView>) -> Seq<TradeView> {
    Seq::new(time_order(trades).len(), |k: int| trades[time_order(trades)[k]])
}

/// Whether `order` holds each of the positions `0` to `n - 1` once.
pub open spec fn arranges(order: Seq<int>, n: int) -> bool {
    &&& order.len() == n
    &&& forall|k: int| 0 <= k < order.len() ==> 0 <= #[trigger] order[k] < n
    &&& forall|x: int, y: int| 0 <= x < y < order.len() ==> order[x] != order[y]
    &&& forall|i: int| 0 <= i < n ==> order.contains(i)
}

/// Whether each position in `order` precedes the ones behind it.
pub open spec fn ascends(trades: Seq<TradeView>, order: Seq<int>) -> bool {
    forall|x: int, y: int|
        0 <= x < y < order.len() ==> precedes(trades, #[trigger] order[x], #[trigger] order[y])
}

/// A slot lies within the run; what stands behind it is later than the
/// timestamp, and what stands just before it is not.
pub proof fn lemma_slot(trades: Seq<TradeView>, order: Seq<int>, stamp: int)
    ensures
        0 <= slot(trades, order, stamp) <= order.len(),
        forall|k: int|
            slot(trades, order, stamp) <= k < order.len() ==> trades[#[trigger] order[k]].timestamp
                > stamp,
        slot(trades, order, stamp) > 0 ==> trades[order[slot(trades, order, stamp)
            - 1]].timestamp <= stamp,
    decreases order.len(),
{
    if order.len() > 0 && trades[order.last()].timestamp > stamp {
        let head = order.drop_last();
        lemma_slot(trades, head, stamp);
        assert forall|k: int| slot(trades, order, stamp) <= k < order.len() implies trades[
            #[trigger] order[k]].timestamp > stamp by {
            if k < head.len() {
                assert(order[k] == head[k]);
            }
        }
        if slot(trades, order, stamp) > 0 {
            assert(order[slot(trades, order, stamp) - 1] == head[slot(trades, head, stamp) - 1]);
        }
    }
}

/// The slot does not depend on trades that `order` does not mention.
pub proof fn lemma_slot_local(a: Seq<TradeView>, b: Seq<TradeView>, order: Seq<int>, stamp: int)
    requires
        forall|k: int| 0 <= k < order.len() ==> a[#[trigger] order[k]] == b[order[k]],
    ensures
        slot(a, order, stamp) == slot(b, order, stamp),
    decreases order.len(),
{
    if order.len() > 0 {
        assert(a[order[order.len() - 1]] == b[order[order.len() - 1]]);
        lemma_slot_local(a, b, order.drop_last(), stamp);
    }
}

/// The order of time holds every position once, and each position in it
/// precedes the ones behind it: earlier timestamps first, equal timestamps
/// in stored order.
pub proof fn lemma_time_order(trades: Seq<TradeView>)
    ensures
        arranges(time_order(trades), trades.len() as int),
        ascends(trades, time_order(trades)),
    decreases trades.len(),
{
    if trades.len() > 0 {
        let n = trades.len() - 1;
        let head = trades.drop_last();
        let before = time_order(head);
        let stamp = trades.last().timestamp as int;
        let p = slot(trades, before, stamp);
        let order = time_order(trades);
        lemma_time_order(head);
        lemma_slot(trades, before, stamp);
        assert(order == before.insert(p, n));
        assert forall|k: int| 0 <= k < order.len() implies 0 <= #[trigger] order[k] < n + 1 by {
            if k < p {
                assert(order[k] == before[k]);
            } else if k > p {
                assert(order[k] == before[k - 1]);
            }
        }
        assert forall|x: int, y: int| 0 <= x < y < order.len() implies order[x] != order[y]
            && precedes(trades, #[trigger] order[x], #[trigger] order[y]) by {
            let ox = if x < p {
                x
            } else {
                x - 1
            };
            let oy = if y < p {
                y
            } else {
                y - 1
            };
            if x != p && y != p {
                assert(order[x] == before[ox] && order[y] == before[oy]);
                assert(precedes(head, before[ox], before[oy]));
            } else if x == p {
                assert(order[y] == before[oy]);
                assert(trades[before[oy]].timestamp > stamp);
            } else {
                assert(order[x] == before[ox]);
                if p > 0 && ox < p - 1 {
                    assert(precedes(head, before[ox], before[p - 1]));
                }
                assert(trades[before[ox]].timestamp <= stamp);
                assert(before[ox] < n);
            }
        }
        assert forall|i: int| 0 <= i < n + 1 implies order.contains(i) by {
            if i == n {
                assert(order[p] == n);
            } else {
                assert(before.contains(i));
                let k = choose|k: int| 0 <= k < before.len() && before[k] == i;
                if k < p {
                    assert(order[k] == i);
                } else {
                    assert(order[k + 1] == i);
                }
            }
        }
    }
}

/// Storing one trade more puts it into the order of time at its slot and
/// leaves the others in their order.
pub proof fn lemma_chronological_push(trades: Seq<TradeView>, trade: TradeView)
    ensures
        chronological(trades.push(trade)) == chronological(trades).insert(
            slot(trades, time_order(trades), trade.timestamp as int),
            trade,
        ),
        0 <= slot(trades, time_order(trades), trade.timestamp as int) <= trades.len(),
        chronological(trades).len() == trades.len(),
{
    let longer = trades.push(trade);
    let before = time_order(trades);
    let stamp = trade.timestamp as int;
    assert(longer.drop_last() =~= trades);
    lemma_time_order(trades);
    lemma_time_order(longer);
    assert forall|k: int| 0 <= k < before.len() implies longer[#[trigger] before[k]]
        == trades[before[k]] by {}
    lemma_slot_local(longer, trades, before, stamp);
    let p = slot(trades, before, stamp);
    lemma_slot(trades, before, stamp);
    let order = time_order(longer);
    assert(order == before.insert(p, trades.len() as int));
    let left = chronological(longer);
    let right = chronological(trades).insert(p, trade);
    assert(left.len() == right.len());
    assert forall|k: int| 0 <= k < left.len() implies left[k] == right[k] by {
        if k < p {
            assert(order[k] == before[k]);
        } else if k > p {
            assert(order[k] == before[k - 1]);
        }
    }
    assert(left =~= right);
}

/// Positions as mathematical integers.
pub open spec fn as_ints(order: Seq<usize>) -> Seq<int> {
    Seq::new(order.len(), |k: int| order[k] as int)
}

impl Ledger {
    /// The positions of the trades, arranged in order of time: earlier
    /// timestamps first, equal timestamps in stored order.
    pub fn time_order(&self) -> (order: Vec<usize>)
        ensures
            as_ints(order@) == time_order(self@),
    {
        let n = self.len();
        let mut order: Vec<usize> = Vec::new();
        let mut j: usize = 0;
        assert(self@.take(0) =~= Seq::<TradeView>::empty());
        assert(as_ints(order@) =~= Seq::<int>::empty());
        while j < n
            invariant
                n == self@.len(),
                j <= n,
                as_ints(order@) == time_order(self@.take(j as int)),
            decreases n - j,
        {
            let ghost upto = self@.take(j + 1);
            let ghost before = as_ints(order@);
            let stamp = self.get(j).timestamp;
            proof {
                assert(upto.drop_last() =~= self@.take(j as int));
                lemma_time_order(self@.take(j as int));
            }
            let mut p: usize = order.len();
            assert(before.take(p as int) =~= before);
            while p > 0 && self.get(order[p - 1]).timestamp > stamp
                invariant
                    p <= order@.len(),
                    j < n,
                    n == self@.len(),
                    upto == self@.take(j + 1),
                    before == as_ints(order@),
                    forall|k: int| 0 <= k < before.len() ==> 0 <= #[trigger] before[k] < j,
                    slot(upto, before, stamp as int) == slot(
                        upto,
                        before.take(p as int),
                        stamp as int,
                    ),
                decreases p,
            {
                assert(before.take(p as int).drop_last() =~= before.take(p - 1));
                assert(before.take(p as int).last() == before[p - 1]);
                assert(upto[before[p - 1]] == self@[order@[p - 1] as int]);
                p -= 1;
            }
            proof {
                if p > 0 {
                    assert(before.take(p as int).last() == before[p - 1]);
                    assert(upto[before[p - 1]] == self@[order@[p - 1] as int]);
                }
                assert(slot(upto, before, stamp as int) == p);
            }
            order.insert(p, j);
            assert(as_ints(order@) =~= before.insert(p as int, j as int));
            assert(upto.last() == self@[j as int]);
            j += 1;
        }
        assert(self@.take(n as int) =~= self@);
        order
    }
}

} // verus!
