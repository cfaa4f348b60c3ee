//! The integrity check: which stored entries are consistent.
//!
//! Loading a section fails on a line that cannot be read. What has been
//! loaded can still be inconsistent: a trade may name an unknown stock,
//! have a quantity that is not positive or a negative price, or sell more
//! than was held at its time. Such entries are not counted; they do not
//! stop the check.

use vstd::prelude::*;
use crate::error::Error;
use crate::ledger::Ledger;
use crate::record::{stock_storable, Side, StockView, TradeView};
use crate::registry::{holds_symbol, registry_wf, Registry};
use crate::timeline::{
    arranges, as_ints, chronological, lemma_chronological_push, lemma_time_order, slot, time_order,
};

verus! {

/// What is wrong with a trade taken by itself: its symbol must be in the
/// registry, its quantity positive and its price not negative. The first of
/// these that fails is reported.
pub open spec fn own_fault(stocks: Seq<StockView>, trade: TradeView) -> Option<Error> {
    if !holds_symbol(stocks, trade.symbol) {
        Some(Error::UnknownSymbol)
    } else if trade.quantity <= 0 {
        Some(Error::InvalidQuantity)
    } else if trade.price < 0 {
        Some(Error::InvalidPrice)
    } else {
        None
    }
}

/// The quantity of `symbol` held after the trades of `past`, given in order
/// of time. Only consistent trades count: a purchase adds its quantity, a
/// sale that is covered takes its quantity away.
pub open spec fn held(stocks: Seq<StockView>, past: Seq<TradeView>, symbol: Seq<u8>) -> int
    decreases past.len(),
{
    if past.len() == 0 {
        0
    } else {
        let before = held(stocks, past.drop_last(), symbol);
        let trade = past.last();
        if trade.symbol != symbol || own_fault(stocks, trade) is Some {
            before
        } else {
            match trade.side {
                Side::Buy => before + trade.quantity,
                Side::Sell => if trade.quantity <= before {
                    before - trade.quantity
                } else {
                    before
                },
            }
        }
    }
}

/// What is wrong with a trade that follows the trades of `past`: its own
/// fault, or else that it sells more than is held of its stock.
pub open spec fn fault(stocks: Seq<StockView>, past: Seq<TradeView>, trade: TradeView) -> Option<
    Error,
> {
    match own_fault(stocks, trade) {
        Some(e) => Some(e),
        None => if trade.side == Side::Sell && trade.quantity > held(stocks, past, trade.symbol) {
            Some(Error::Oversell)
        } else {
            None
        },
    }
}

/// How many of the trades, given in order of time, are consistent.
pub open spec fn sound_count(stocks: Seq<StockView>, trades: Seq<TradeView>) -> nat
    decreases trades.len(),
{
    if trades.len() == 0 {
        0
    } else {
        let rest = sound_count(stocks, trades.drop_last());
        if fault(stocks, trades.drop_last(), trades.last()) is None {
            rest + 1
        } else {
            rest
        }
    }
}

/// How many trades of a ledger are consistent when replayed in order of
/// time.
pub open spec fn validated_trades(stocks: Seq<StockView>, trades: Seq<TradeView>) -> nat {
    sound_count(stocks, chronological(trades))
}

/// How many of the stocks are storable and do not repeat an earlier symbol.
pub open spec fn validated_stocks(stocks: Seq<StockView>) -> nat
    decreases stocks.len(),
{
    if stocks.len() == 0 {
        0
    } else {
        let rest = validated_stocks(stocks.drop_last());
        if stock_storable(stocks.last()) && !holds_symbol(stocks.drop_last(), stocks.last().symbol) {
            rest + 1
        } else {
            rest
        }
    }
}

/// Whether no sale in the ledger exceeds what is held at its time.
pub open spec fn never_oversold(stocks: Seq<StockView>, trades: Seq<TradeView>) -> bool {
    forall|k: int|
        #![trigger chronological(trades)[k]]
        0 <= k < chronological(trades).len() ==> fault(
            stocks,
            chronological(trades).take(k),
            chronological(trades)[k],
        ) != Some(Error::Oversell)
}

/// What is held of a stock is never negative, whatever the trades.
pub proof fn lemma_held_never_negative(
    stocks: Seq<StockView>,
    past: Seq<TradeView>,
    symbol: Seq<u8>,
)
    ensures
        held(stocks, past, symbol) >= 0,
    decreases past.len(),
{
    if past.len() > 0 {
        lemma_held_never_negative(stocks, past.drop_last(), symbol);
    }
}

/// In a registry that satisfies its invariant every stock is counted.
pub proof fn lemma_all_stocks_validated(stocks: Seq<StockView>)
    requires
        registry_wf(stocks),
    ensures
        validated_stocks(stocks) == stocks.len(),
    decreases stocks.len(),
{
    if stocks.len() > 0 {
        let before = stocks.drop_last();
        lemma_all_stocks_validated(before);
        if holds_symbol(before, stocks.last().symbol) {
            let i = choose|i: int|
                0 <= i < before.len() && (#[trigger] before[i]).symbol == stocks.last().symbol;
            assert(stocks[i].symbol == stocks[stocks.len() - 1].symbol);
        }
    }
}

/// Where every trade names a stock of the registry with a positive quantity
/// and a price that is not negative, and no sale exceeds what is held at
/// its time, the check counts every trade and every stock.
pub proof fn lemma_check_counts_all(stocks: Seq<StockView>, trades: Seq<TradeView>)
    requires
        registry_wf(stocks),
        forall|i: int| 0 <= i < trades.len() ==> own_fault(stocks, #[trigger] trades[i]) is None,
        never_oversold(stocks, trades),
    ensures
        validated_trades(stocks, trades) == trades.len(),
        validated_stocks(stocks) == stocks.len(),
{
    lemma_all_stocks_validated(stocks);
    lemma_time_order(trades);
    lemma_sound_prefix(stocks, trades, trades.len() as int);
    assert(chronological(trades).take(trades.len() as int) =~= chronological(trades));
}

/// The first `m` trades in order of time are all counted, under the
/// conditions of `lemma_check_counts_all`.
proof fn lemma_sound_prefix(stocks: Seq<StockView>, trades: Seq<TradeView>, m: int)
    requires
        0 <= m <= trades.len(),
        forall|i: int| 0 <= i < trades.len() ==> own_fault(stocks, #[trigger] trades[i]) is None,
        never_oversold(stocks, trades),
    ensures
        sound_count(stocks, chronological(trades).take(m)) == m,
    decreases m,
{
    lemma_time_order(trades);
    let timed = chronological(trades);
    if m > 0 {
        lemma_sound_prefix(stocks, trades, m - 1);
        assert(timed.take(m).drop_last() =~= timed.take(m - 1));
        assert(timed.take(m).last() == timed[m - 1]);
        let i = time_order(trades)[m - 1];
        assert(timed[m - 1] == trades[i]);
        assert(own_fault(stocks, trades[i]) is None);
    }
}

/// A trade with a fault of its own changes neither what is held nor how
/// many of the other trades are counted, wherever it stands.
pub proof fn lemma_faulty_trade_is_inert(
    stocks: Seq<StockView>,
    trades: Seq<TradeView>,
    at: int,
    trade: TradeView,
)
    requires
        0 <= at <= trades.len(),
        own_fault(stocks, trade) is Some,
    ensures
        forall|symbol: Seq<u8>| #[trigger]
            held(stocks, trades.insert(at, trade), symbol) == held(stocks, trades, symbol),
        sound_count(stocks, trades.insert(at, trade)) == sound_count(stocks, trades),
    decreases trades.len() - at,
{
    let longer = trades.insert(at, trade);
    if at == trades.len() {
        assert(longer.drop_last() =~= trades);
        assert(longer.last() == trade);
    } else {
        let head = trades.drop_last();
        lemma_faulty_trade_is_inert(stocks, head, at, trade);
        assert(longer.drop_last() =~= head.insert(at, trade));
        assert(longer.last() == trades.last());
        assert(held(stocks, head.insert(at, trade), trades.last().symbol) == held(
            stocks,
            head,
            trades.last().symbol,
        ));
        assert forall|symbol: Seq<u8>| #[trigger]
            held(stocks, longer, symbol) == held(stocks, trades, symbol) by {
            assert(held(stocks, head.insert(at, trade), symbol) == held(stocks, head, symbol));
        }
    }
}

/// Storing one trade with an unknown symbol leaves the number of validated
/// trades as it was: of the stored trades, exactly one more goes uncounted.
/// The number of validated stocks does not depend on the ledger.
pub proof fn lemma_unknown_symbol_uncounted(
    stocks: Seq<StockView>,
    trades: Seq<TradeView>,
    trade: TradeView,
)
    requires
        !holds_symbol(stocks, trade.symbol),
    ensures
        validated_trades(stocks, trades.push(trade)) == validated_trades(stocks, trades),
        trades.push(trade).len() - validated_trades(stocks, trades.push(trade)) == trades.len()
            - validated_trades(stocks, trades) + 1,
{
    lemma_chronological_push(trades, trade);
    let at = slot(trades, time_order(trades), trade.timestamp as int);
    lemma_faulty_trade_is_inert(stocks, chronological(trades), at, trade);
}

/// What a replay of the ledger in order of time finds.
pub struct Replay {
    /// For each trade, by its position in stored order, what is wrong with
    /// it, if anything.
    pub faults: Vec<Option<Error>>,
    /// How many trades have no fault.
    pub sound: usize,
}

/// Whether `faults` holds, for each trade of the ledger by its stored
/// position, the fault that the replay in order of time finds with it.
pub open spec fn faults_of(
    stocks: Seq<StockView>,
    trades: Seq<TradeView>,
    faults: Seq<Option<Error>>,
) -> bool {
    &&& faults.len() == trades.len()
    &&& forall|k: int|
        #![trigger time_order(trades)[k]]
        0 <= k < trades.len() ==> faults[time_order(trades)[k]] == fault(
            stocks,
            chronological(trades).take(k),
            chronological(trades)[k],
        )
}

/// The largest quantity that one trade can add to what is held.
spec fn step_limit() -> int {
    0x7fff_ffff_ffff_ffff
}

/// What is held after `k` trades is at most `k` times the largest quantity.
proof fn lemma_limit_step(k: int, have: int, quantity: int)
    requires
        0 <= k < 0x1_0000_0000_0000_0000,
        0 <= have <= k * step_limit(),
        0 < quantity <= step_limit(),
    ensures
        have + quantity <= (k + 1) * step_limit(),
        (k + 1) * step_limit() <= u128::MAX,
        k * step_limit() <= (k + 1) * step_limit(),
{
    assert((k + 1) * step_limit() == k * step_limit() + step_limit()) by (nonlinear_arith);
    assert((k + 1) * step_limit() <= 0x1_0000_0000_0000_0000 * step_limit()) by (nonlinear_arith)
        requires
            k + 1 <= 0x1_0000_0000_0000_0000,
            step_limit() >= 0,
    ;
}

/// Replays the ledger in order of time against the registry.
pub fn replay(registry: &Registry, ledger: &Ledger) -> (out: Replay)
    requires
        registry.wf(),
    ensures
        faults_of(registry@, ledger@, out.faults@),
        out.sound == validated_trades(registry@, ledger@),
{
    let n = ledger.len();
    let m = registry.len();
    let order = ledger.time_order();
    let ghost stocks = registry@;
    let ghost timed = chronological(ledger@);
    proof {
        lemma_time_order(ledger@);
    }
    let mut have: Vec<u128> = Vec::new();
    let mut r: usize = 0;
    while r < m
        invariant
            r <= m,
            have@.len() == r,
            forall|x: int| 0 <= x < r ==> have@[x] == 0,
        decreases m - r,
    {
        have.push(0);
        r += 1;
    }
    let mut faults: Vec<Option<Error>> = Vec::new();
    let mut i: usize = 0;
    while i < n
        invariant
            i <= n,
            faults@.len() == i,
        decreases n - i,
    {
        faults.push(None);
        i += 1;
    }
    let mut sound: usize = 0;
    let mut k: usize = 0;
    assert(timed.take(0) =~= Seq::<TradeView>::empty());
    while k < n
        invariant
            k <= n,
            n == ledger@.len(),
            m == registry@.len(),
            stocks == registry@,
            registry_wf(stocks),
            timed == chronological(ledger@),
            timed.len() == n,
            as_ints(order@) == time_order(ledger@),
            arranges(time_order(ledger@), n as int),
            have@.len() == m,
            faults@.len() == n,
            sound == sound_count(stocks, timed.take(k as int)),
            sound <= k,
            forall|x: int|
                0 <= x < m ==> #[trigger] have@[x] == held(
                    stocks,
                    timed.take(k as int),
                    stocks[x].symbol,
                ),
            forall|x: int| 0 <= x < m ==> #[trigger] have@[x] <= k * step_limit(),
            forall|j: int|
                #![trigger time_order(ledger@)[j]]
                0 <= j < k ==> faults@[time_order(ledger@)[j]] == fault(
                    stocks,
                    timed.take(j),
                    timed[j],
                ),
        decreases n - k,
    {
        let ghost past = timed.take(k as int);
        let ghost upto = timed.take(k + 1);
        assert(order@[k as int] as int == as_ints(order@)[k as int]);
        let at = order[k];
        assert(at as int == time_order(ledger@)[k as int]);
        let trade = ledger.get(at);
        assert(trade@ == timed[k as int]);
        assert(upto.drop_last() =~= past);
        assert(upto.last() == trade@);
        let ghost old_have = have@;
        let mut verdict: Option<Error> = None;
        match registry.find(trade.symbol.as_slice()) {
            None => {
                verdict = Some(Error::UnknownSymbol);
            },
            Some(row) => {
                assert(stocks[row as int].symbol == trade@.symbol);
                assert(holds_symbol(stocks, trade@.symbol));
                if trade.quantity <= 0 {
                    verdict = Some(Error::InvalidQuantity);
                } else if trade.price < 0 {
                    verdict = Some(Error::InvalidPrice);
                } else {
                    let quantity = trade.quantity as u128;
                    let before = have[row];
                    proof {
                        lemma_limit_step(k as int, before as int, quantity as int);
                    }
                    match trade.side {
                        Side::Buy => {
                            have.set(row, before + quantity);
                        },
                        Side::Sell => {
                            if quantity > before {
                                verdict = Some(Error::Oversell);
                            } else {
                                have.set(row, before - quantity);
                            }
                        },
                    }
                }
                assert forall|x: int| 0 <= x < m && x != row implies stocks[x].symbol
                    != trade@.symbol by {
                    if x < row {
                        assert(stocks[x].symbol != stocks[row as int].symbol);
                    } else {
                        assert(stocks[row as int].symbol != stocks[x].symbol);
                    }
                }
            },
        }
        assert(verdict == fault(stocks, past, trade@));
        assert forall|x: int| 0 <= x < m implies #[trigger] have@[x] == held(
            stocks,
            upto,
            stocks[x].symbol,
        ) by {
            assert(old_have[x] == held(stocks, past, stocks[x].symbol));
        }
        assert forall|x: int| 0 <= x < m implies #[trigger] have@[x] <= (k + 1) * step_limit() by {
            assert(old_have[x] <= k * step_limit());
            assert(k * step_limit() <= (k + 1) * step_limit()) by (nonlinear_arith);
            if have@[x] != old_have[x] {
                lemma_limit_step(k as int, old_have[x] as int, trade.quantity as int);
            }
        }
        let ghost old_faults = faults@;
        let sound_here = verdict.is_none();
        faults.set(at, verdict);
        if sound_here {
            sound += 1;
        }
        assert forall|j: int|
            #![trigger time_order(ledger@)[j]]
            0 <= j < k + 1 implies faults@[time_order(ledger@)[j]] == fault(
            stocks,
            timed.take(j),
            timed[j],
        ) by {
            if j < k {
                assert(time_order(ledger@)[j] != time_order(ledger@)[k as int]);
                assert(faults@[time_order(ledger@)[j]] == old_faults[time_order(ledger@)[j]]);
            }
        }
        k += 1;
    }
    assert(timed.take(n as int) =~= timed);
    Replay { faults, sound }
}

/// For each trade of the ledger, by its position in stored order, what is
/// wrong with it, if anything.
pub fn audit(registry: &Registry, ledger: &Ledger) -> (faults: Vec<Option<Error>>)
    requires
        registry.wf(),
    ensures
        faults_of(registry@, ledger@, faults@),
{
    replay(registry, ledger).faults
}

/// Counts the consistent entries: first the trades that have no fault when
/// the ledger is replayed in order of time, then the stocks.
pub fn check(registry: &Registry, ledger: &Ledger) -> (counts: (usize, usize))
    requires
        registry.wf(),
    ensures
        counts.0 == validated_trades(registry@, ledger@),
        counts.1 == validated_stocks(registry@),
{
    proof {
        lemma_all_stocks_validated(registry@);
    }
    (replay(registry, ledger).sound, registry.len())
}

} // verus!
