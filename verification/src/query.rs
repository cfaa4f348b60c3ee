//! The query engine: the trades of the ledger with the display names of
//! their stocks, all of them or those whose name holds a given text.

use vstd::prelude::*;
use crate::ledger::Ledger;
use crate::record::{StockView, TradeRecord, TradeView};
use crate::registry::{holds_symbol, registry_wf, Registry};
use crate::text::{contains_bytes, contains_run, copy_bytes};

verus! {

/// A trade together with the display name of its stock.
#[derive(Clone, Debug, PartialEq, Eq)]
pub struct TradeLine {
    /// The trade as the ledger holds it.
    pub trade: TradeRecord,
    /// The display name of the stock that the trade names, or `None` where
    /// the registry does not hold its symbol.
    pub name: Option<Vec<u8>>,
}

/// The mathematical value of a [`TradeLine`].
pub struct TradeLineView {
    pub trade: TradeView,
    pub name: Option<Seq<u8>>,
}

impl View for TradeLine {
    type V = TradeLineView;

    open spec fn view(&self) -> TradeLineView {
        TradeLineView {
            trade: self.trade@,
            name: match self.name {
                Some(n) => Some(n@),
                None => None,
            },
        }
    }
}

/// The mathematical values of a run of trade lines.
pub open spec fn line_views(lines: Seq<TradeLine>) -> Seq<TradeLineView> {
    Seq::new(lines.len(), |i: int| lines[i]@)
}

/// The display name of the stock with the symbol, if the registry holds it.
pub open spec fn display_name(stocks: Seq<StockView>, symbol: Seq<u8>) -> Option<Seq<u8>> {
    if holds_symbol(stocks, symbol) {
        let i = choose|i: int| 0 <= i < stocks.len() && (#[trigger] stocks[i]).symbol == symbol;
        Some(stocks[i].name)
    } else {
        None
    }
}

/// A trade joined with the registry.
pub open spec fn joined(stocks: Seq<StockView>, trade: TradeView) -> TradeLineView {
    TradeLineView { trade, name: display_name(stocks, trade.symbol) }
}

/// Whether a line passes the filter: without a filter every line does; with
/// one, the lines whose stock is known and whose display name holds the
/// filter's text, compared bytewise.
pub open spec fn passes(line: TradeLineView, filter: Option<Seq<u8>>) -> bool {
    match filter {
        None => true,
        Some(text) => line.name matches Some(name) && contains_run(name, text),
    }
}

/// The lines of the trades that pass the filter, in the order of the
/// trades.
pub open spec fn select(
    stocks: Seq<StockView>,
    trades: Seq<TradeView>,
    filter: Option<Seq<u8>>,
) -> Seq<TradeLineView>
    decreases trades.len(),
{
    if trades.len() == 0 {
        Seq::<TradeLineView>::empty()
    } else {
        let rest = select(stocks, trades.drop_last(), filter);
        let line = joined(stocks, trades.last());
        if passes(line, filter) {
            rest.push(line)
        } else {
            rest
        }
    }
}

/// The text of an optional filter.
pub open spec fn filter_view(filter: Option<&[u8]>) -> Option<Seq<u8>> {
    match filter {
        Some(text) => Some(text@),
        None => None,
    }
}

/// In a registry that satisfies its invariant, the display name for a
/// symbol is the name of the one stock that has it.
pub proof fn lemma_display_name(stocks: Seq<StockView>, i: int)
    requires
        registry_wf(stocks),
        0 <= i < stocks.len(),
    ensures
        display_name(stocks, stocks[i].symbol) == Some(stocks[i].name),
{
    let symbol = stocks[i].symbol;
    assert(holds_symbol(stocks, symbol));
    let j = choose|j: int| 0 <= j < stocks.len() && (#[trigger] stocks[j]).symbol == symbol;
    if j < i {
        assert(stocks[j].symbol != stocks[i].symbol);
    } else if i < j {
        assert(stocks[i].symbol != stocks[j].symbol);
    }
}

/// Without a filter every trade is returned, in stored order.
pub proof fn lemma_select_all(stocks: Seq<StockView>, trades: Seq<TradeView>)
    ensures
        select(stocks, trades, None) == Seq::new(trades.len(), |i: int| joined(stocks, trades[i])),
    decreases trades.len(),
{
    if trades.len() > 0 {
        lemma_select_all(stocks, trades.drop_last());
    }
    assert(select(stocks, trades, None) =~= Seq::new(
        trades.len(),
        |i: int| joined(stocks, trades[i]),
    ));
}

/// Whether `picks` names positions of `trades` in rising order.
pub open spec fn rising(picks: Seq<int>, n: int) -> bool {
    &&& forall|k: int| 0 <= k < picks.len() ==> 0 <= #[trigger] picks[k] < n
    &&& forall|a: int, b: int| 0 <= a < b < picks.len() ==> picks[a] < picks[b]
}

/// The positions of the trades that pass the filter, in rising order.
pub open spec fn picked(stocks: Seq<StockView>, trades: Seq<TradeView>, filter: Option<Seq<u8>>) -> Seq<
    int,
>
    decreases trades.len(),
{
    if trades.len() == 0 {
        Seq::<int>::empty()
    } else {
        let rest = picked(stocks, trades.drop_last(), filter);
        if passes(joined(stocks, trades.last()), filter) {
            rest.push(trades.len() - 1)
        } else {
            rest
        }
    }
}

/// The selection is exactly the subset of the trades that pass the filter,
/// in stored order: its lines are the lines of the positions that pass, each
/// once, rising.
pub proof fn lemma_select_subset(
    stocks: Seq<StockView>,
    trades: Seq<TradeView>,
    filter: Option<Seq<u8>>,
)
    ensures
        rising(picked(stocks, trades, filter), trades.len() as int),
        select(stocks, trades, filter).len() == picked(stocks, trades, filter).len(),
        forall|k: int|
            0 <= k < picked(stocks, trades, filter).len() ==> #[trigger] select(
                stocks,
                trades,
                filter,
            )[k] == joined(stocks, trades[picked(stocks, trades, filter)[k]]),
        forall|i: int|
            0 <= i < trades.len() ==> (picked(stocks, trades, filter).contains(i) <==> passes(
                joined(stocks, #[trigger] trades[i]),
                filter,
            )),
    decreases trades.len(),
{
    if trades.len() > 0 {
        let head = trades.drop_last();
        let rest = picked(stocks, head, filter);
        let picks = picked(stocks, trades, filter);
        let last = trades.len() - 1;
        lemma_select_subset(stocks, head, filter);
        assert forall|i: int| 0 <= i < trades.len() implies (picks.contains(i) <==> passes(
            joined(stocks, #[trigger] trades[i]),
            filter,
        )) by {
            if i < last {
                assert(head[i] == trades[i]);
                if rest.contains(i) {
                    let k = choose|k: int| 0 <= k < rest.len() && rest[k] == i;
                    assert(picks[k] == i);
                }
                if picks.contains(i) {
                    let k = choose|k: int| 0 <= k < picks.len() && picks[k] == i;
                    assert(rest[k] == i);
                }
            } else {
                if passes(joined(stocks, trades[i]), filter) {
                    assert(picks[picks.len() - 1] == i);
                }
                if picks.contains(i) {
                    let k = choose|k: int| 0 <= k < picks.len() && picks[k] == i;
                    if k < rest.len() {
                        assert(rest[k] < last);
                    }
                }
            }
        }
        assert forall|k: int| 0 <= k < picks.len() implies #[trigger] select(
            stocks,
            trades,
            filter,
        )[k] == joined(stocks, trades[picks[k]]) by {
            if k < rest.len() {
                assert(select(stocks, head, filter)[k] == joined(stocks, head[rest[k]]));
            }
        }
    }
}

/// The trades of the ledger, each with the display name of its stock, in
/// stored order. With a filter, only the trades whose stock is known and
/// whose display name holds the filter's text; the comparison is bytewise,
/// so it tells upper from lower case.
pub fn trades(registry: &Registry, ledger: &Ledger, filter: Option<&[u8]>) -> (lines: Vec<
    TradeLine,
>)
    requires
        registry.wf(),
    ensures
        line_views(lines@) == select(registry@, ledger@, filter_view(filter)),
{
    let n = ledger.len();
    let mut lines: Vec<TradeLine> = Vec::new();
    let ghost stocks = registry@;
    let ghost wanted = filter_view(filter);
    let mut i: usize = 0;
    assert(ledger@.take(0) =~= Seq::<TradeView>::empty());
    assert(line_views(lines@) =~= Seq::<TradeLineView>::empty());
    while i < n
        invariant
            i <= n,
            n == ledger@.len(),
            stocks == registry@,
            registry_wf(stocks),
            wanted == filter_view(filter),
            line_views(lines@) == select(stocks, ledger@.take(i as int), wanted),
        decreases n - i,
    {
        let trade = ledger.get(i);
        let ghost upto = ledger@.take(i + 1);
        assert(upto.drop_last() =~= ledger@.take(i as int));
        assert(upto.last() == trade@);
        let name: Option<Vec<u8>> = match registry.find(trade.symbol.as_slice()) {
            Some(at) => {
                proof {
                    lemma_display_name(stocks, at as int);
                }
                Some(copy_bytes(registry.get(at).name.as_slice()))
            },
            None => None,
        };
        let keep = match filter {
            None => true,
            Some(text) => match &name {
                Some(n) => contains_bytes(n.as_slice(), text),
                None => false,
            },
        };
        if keep {
            let ghost before = line_views(lines@);
            let line = TradeLine { trade: trade.duplicate(), name };
            assert(line@ == joined(stocks, trade@));
            lines.push(line);
            assert(line_views(lines@) =~= before.push(line@));
        }
        i += 1;
    }
    assert(ledger@.take(n as int) =~= ledger@);
    lines
}

} // verus!
