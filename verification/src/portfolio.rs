//! The portfolio: what is held of each stock after all trades of the
//! ledger.

use vstd::prelude::*;
use crate::ledger::Ledger;
use crate::record::{Side, TradeView};
use crate::text::{
    ascending, bytes_eq, bytes_lt, copy_bytes, lemma_ascending_unique, lemma_lex_irreflexive,
    lemma_lex_total, lemma_lex_transitive, lex_lt, views,
};
use crate::timeline::{
    arranges, as_ints, chronological, lemma_chronological_push, lemma_time_order, slot, time_order,
};

verus! {

/// The net holding of one stock.
#[derive(Clone, Debug, PartialEq, Eq)]
pub struct Position {
    /// The symbol of the stock.
    pub symbol: Vec<u8>,
    /// What was bought less what was sold. Negative where more was sold.
    pub net_quantity: i128,
    /// What the purchases cost in all, in hundredths of the currency, or
    /// `None` where that sum does not fit the type.
    pub cost_basis: Option<u128>,
}

/// The mathematical value of a [`Position`].
pub struct PositionView {
    pub symbol: Seq<u8>,
    pub net_quantity: int,
    pub cost_basis: Option<int>,
}

impl View for Position {
    type V = PositionView;

    open spec fn view(&self) -> PositionView {
        PositionView {
            symbol: self.symbol@,
            net_quantity: self.net_quantity as int,
            cost_basis: cost_view(self.cost_basis),
        }
    }
}

/// A cost as a mathematical integer.
pub open spec fn cost_view(cost: Option<u128>) -> Option<int> {
    match cost {
        Some(c) => Some(c as int),
        None => None,
    }
}

/// The mathematical values of a run of positions.
pub open spec fn position_views(positions: Seq<Position>) -> Seq<PositionView> {
    Seq::new(positions.len(), |i: int| positions[i]@)
}

/// What a trade adds to the net quantity of its stock: its quantity for a
/// purchase, the negative of it for a sale.
pub open spec fn signed_quantity(trade: TradeView) -> int {
    match trade.side {
        Side::Buy => trade.quantity as int,
        Side::Sell => -(trade.quantity as int),
    }
}

/// What a trade adds to the cost of its stock: quantity times price for a
/// purchase of a positive quantity at a price that is not negative, nothing
/// otherwise.
pub open spec fn purchase_cost(trade: TradeView) -> int {
    cost_term(trade.side, trade.quantity, trade.price)
}

/// Quantity times price for a purchase of a positive quantity at a price
/// that is not negative, nothing otherwise.
pub open spec fn cost_term(side: Side, quantity: i64, price: i64) -> int {
    if side == Side::Buy && quantity > 0 && price >= 0 {
        quantity * price
    } else {
        0
    }
}

/// The net quantity of `symbol` after the trades.
pub open spec fn net_quantity(trades: Seq<TradeView>, symbol: Seq<u8>) -> int
    decreases trades.len(),
{
    if trades.len() == 0 {
        0
    } else {
        let before = net_quantity(trades.drop_last(), symbol);
        if trades.last().symbol == symbol {
            before + signed_quantity(trades.last())
        } else {
            before
        }
    }
}

/// What the purchases of `symbol` among the trades cost in all.
pub open spec fn total_cost(trades: Seq<TradeView>, symbol: Seq<u8>) -> int
    decreases trades.len(),
{
    if trades.len() == 0 {
        0
    } else {
        let before = total_cost(trades.drop_last(), symbol);
        if trades.last().symbol == symbol {
            before + purchase_cost(trades.last())
        } else {
            before
        }
    }
}

/// The cost basis of `symbol`: the total cost, where it fits 128 bits.
pub open spec fn cost_basis(trades: Seq<TradeView>, symbol: Seq<u8>) -> Option<int> {
    if total_cost(trades, symbol) <= u128::MAX {
        Some(total_cost(trades, symbol))
    } else {
        None
    }
}

/// The position in `symbol` after the trades.
pub open spec fn position_of(trades: Seq<TradeView>, symbol: Seq<u8>) -> PositionView {
    PositionView {
        symbol,
        net_quantity: net_quantity(trades, symbol),
        cost_basis: cost_basis(trades, symbol),
    }
}

/// The symbols of a run of positions.
pub open spec fn symbols_of(positions: Seq<PositionView>) -> Seq<Seq<u8>> {
    Seq::new(positions.len(), |i: int| positions[i].symbol)
}

/// Whether `positions` is the portfolio of the trades: one position for each
/// symbol whose net quantity is not zero, none for any other, each with the
/// net quantity and cost basis of its symbol, in ascending order of the
/// symbols.
pub open spec fn is_portfolio(trades: Seq<TradeView>, positions: Seq<PositionView>) -> bool {
    &&& forall|k: int|
        0 <= k < positions.len() ==> #[trigger] positions[k] == position_of(
            trades,
            positions[k].symbol,
        )
    &&& forall|k: int| 0 <= k < positions.len() ==> (#[trigger] positions[k]).net_quantity != 0
    &&& ascending(symbols_of(positions))
    &&& forall|symbol: Seq<u8>|
        #[trigger] net_quantity(trades, symbol) != 0 ==> symbols_of(positions).contains(symbol)
}

/// A purchase costs nothing or more.
pub proof fn lemma_purchase_cost(trade: TradeView)
    ensures
        0 <= purchase_cost(trade) <= 0x3fff_ffff_ffff_ffff_0000_0000_0000_0001,
{
    let q = trade.quantity as int;
    let p = trade.price as int;
    if trade.side == Side::Buy && q > 0 && p >= 0 {
        assert(0 <= q * p <= 0x7fff_ffff_ffff_ffff * 0x7fff_ffff_ffff_ffff) by (nonlinear_arith)
            requires
                0 < q <= 0x7fff_ffff_ffff_ffff,
                0 <= p <= 0x7fff_ffff_ffff_ffff,
        ;
    }
}

/// The net quantity and the cost stay within what the number of trades
/// allows.
pub proof fn lemma_fold_bounds(trades: Seq<TradeView>, symbol: Seq<u8>)
    ensures
        -(trades.len() * 0x8000_0000_0000_0000) <= net_quantity(trades, symbol) <= trades.len()
            * 0x8000_0000_0000_0000,
        0 <= total_cost(trades, symbol),
    decreases trades.len(),
{
    if trades.len() > 0 {
        lemma_fold_bounds(trades.drop_last(), symbol);
        lemma_purchase_cost(trades.last());
        assert(trades.len() * 0x8000_0000_0000_0000 == trades.drop_last().len()
            * 0x8000_0000_0000_0000 + 0x8000_0000_0000_0000) by (nonlinear_arith)
            requires
                trades.len() == trades.drop_last().len() + 1,
        ;
    }
}

/// Wherever a trade stands among the others, it adds the same to the net
/// quantity and to the cost.
pub proof fn lemma_fold_insert(trades: Seq<TradeView>, at: int, trade: TradeView, symbol: Seq<u8>)
    requires
        0 <= at <= trades.len(),
    ensures
        net_quantity(trades.insert(at, trade), symbol) == net_quantity(trades.push(trade), symbol),
        total_cost(trades.insert(at, trade), symbol) == total_cost(trades.push(trade), symbol),
    decreases trades.len() - at,
{
    let longer = trades.insert(at, trade);
    let pushed = trades.push(trade);
    assert(pushed.drop_last() =~= trades);
    assert(pushed.last() == trade);
    if at == trades.len() {
        assert(longer =~= pushed);
    } else {
        let head = trades.drop_last();
        let last = trades.last();
        lemma_fold_insert(head, at, trade, symbol);
        assert(longer.drop_last() =~= head.insert(at, trade));
        assert(longer.last() == last);
        assert(head.push(trade).drop_last() =~= head);
        assert(head.push(trade).last() == trade);
        let step = if trade.symbol == symbol {
            signed_quantity(trade)
        } else {
            0
        };
        let last_step = if last.symbol == symbol {
            signed_quantity(last)
        } else {
            0
        };
        assert(net_quantity(head.push(trade), symbol) == net_quantity(head, symbol) + step);
        assert(net_quantity(trades, symbol) == net_quantity(head, symbol) + last_step);
        assert(net_quantity(pushed, symbol) == net_quantity(trades, symbol) + step);
        assert(net_quantity(longer, symbol) == net_quantity(head.insert(at, trade), symbol)
            + last_step);
        let paid = if trade.symbol == symbol {
            purchase_cost(trade)
        } else {
            0
        };
        let last_paid = if last.symbol == symbol {
            purchase_cost(last)
        } else {
            0
        };
        assert(total_cost(head.push(trade), symbol) == total_cost(head, symbol) + paid);
        assert(total_cost(trades, symbol) == total_cost(head, symbol) + last_paid);
        assert(total_cost(pushed, symbol) == total_cost(trades, symbol) + paid);
        assert(total_cost(longer, symbol) == total_cost(head.insert(at, trade), symbol)
            + last_paid);
    }
}

/// Positions do not depend on the order of the trades: replayed in order of
/// time, the trades give the net quantity and the cost that they give in
/// stored order.
pub proof fn lemma_position_any_order(trades: Seq<TradeView>, symbol: Seq<u8>)
    ensures
        position_of(chronological(trades), symbol) == position_of(trades, symbol),
    decreases trades.len(),
{
    lemma_time_order(trades);
    if trades.len() == 0 {
        assert(chronological(trades) =~= trades);
    } else {
        let head = trades.drop_last();
        let trade = trades.last();
        assert(head.push(trade) =~= trades);
        lemma_position_any_order(head, symbol);
        lemma_chronological_push(head, trade);
        let at = slot(head, time_order(head), trade.timestamp as int);
        lemma_fold_insert(chronological(head), at, trade, symbol);
        assert(chronological(head).push(trade).drop_last() =~= chronological(head));
    }
}

/// A stock whose purchases and sales cancel has no position in the
/// portfolio.
pub proof fn lemma_sold_out_absent(
    trades: Seq<TradeView>,
    positions: Seq<PositionView>,
    symbol: Seq<u8>,
)
    requires
        is_portfolio(trades, positions),
        net_quantity(trades, symbol) == 0,
    ensures
        forall|k: int| 0 <= k < positions.len() ==> (#[trigger] positions[k]).symbol != symbol,
{
    assert forall|k: int| 0 <= k < positions.len() implies (#[trigger] positions[k]).symbol
        != symbol by {
        assert(positions[k] == position_of(trades, positions[k].symbol));
        assert(positions[k].net_quantity != 0);
    }
}

/// The trades have one portfolio only.
pub proof fn lemma_portfolio_unique(
    trades: Seq<TradeView>,
    one: Seq<PositionView>,
    other: Seq<PositionView>,
)
    requires
        is_portfolio(trades, one),
        is_portfolio(trades, other),
    ensures
        one == other,
{
    let x = symbols_of(one);
    let y = symbols_of(other);
    assert forall|s: Seq<u8>| x.contains(s) <==> y.contains(s) by {
        if x.contains(s) {
            let k = choose|k: int| 0 <= k < x.len() && x[k] == s;
            assert(one[k] == position_of(trades, one[k].symbol));
            assert(one[k].net_quantity != 0);
            assert(net_quantity(trades, s) != 0);
        }
        if y.contains(s) {
            let k = choose|k: int| 0 <= k < y.len() && y[k] == s;
            assert(other[k] == position_of(trades, other[k].symbol));
            assert(other[k].net_quantity != 0);
            assert(net_quantity(trades, s) != 0);
        }
    }
    lemma_ascending_unique(x, y);
    assert(one.len() == other.len());
    assert forall|k: int| 0 <= k < one.len() implies one[k] == other[k] by {
        assert(x[k] == y[k]);
        assert(one[k] == position_of(trades, one[k].symbol));
        assert(other[k] == position_of(trades, other[k].symbol));
    }
    assert(one =~= other);
}

/// Whether the three runs hold, for each symbol that the trades name, its
/// net quantity and its cost basis, in ascending order of the symbols.
spec fn tracks(
    past: Seq<TradeView>,
    symbols: Seq<Seq<u8>>,
    nets: Seq<i128>,
    costs: Seq<Option<u128>>,
) -> bool {
    &&& nets.len() == symbols.len()
    &&& costs.len() == symbols.len()
    &&& ascending(symbols)
    &&& forall|a: int|
        0 <= a < symbols.len() ==> nets[a] == net_quantity(past, #[trigger] symbols[a])
            && cost_view(costs[a]) == cost_basis(past, symbols[a])
    &&& forall|symbol: Seq<u8>|
        !symbols.contains(symbol) ==> #[trigger] net_quantity(past, symbol) == 0 && total_cost(
            past,
            symbol,
        ) == 0
}

/// Whether `at` is where `symbol` stands in the ascending run, or where it
/// would have to go.
spec fn is_place(symbols: Seq<Seq<u8>>, symbol: Seq<u8>, at: int, found: bool) -> bool {
    &&& 0 <= at <= symbols.len()
    &&& forall|a: int| 0 <= a < at ==> lex_lt(#[trigger] symbols[a], symbol)
    &&& found ==> at < symbols.len() && symbols[at] == symbol
    &&& !found ==> forall|a: int| at <= a < symbols.len() ==> lex_lt(symbol, #[trigger] symbols[a])
}

/// A symbol that has no place yet gets one with nothing held.
proof fn lemma_tracks_new(
    past: Seq<TradeView>,
    symbols: Seq<Seq<u8>>,
    nets: Seq<i128>,
    costs: Seq<Option<u128>>,
    symbol: Seq<u8>,
    at: int,
)
    requires
        tracks(past, symbols, nets, costs),
        is_place(symbols, symbol, at, false),
    ensures
        tracks(
            past,
            symbols.insert(at, symbol),
            nets.insert(at, 0i128),
            costs.insert(at, Some(0u128)),
        ),
{
    let s2 = symbols.insert(at, symbol);
    let n2 = nets.insert(at, 0i128);
    let c2 = costs.insert(at, Some(0u128));
    assert(!symbols.contains(symbol)) by {
        if symbols.contains(symbol) {
            let a = choose|a: int| 0 <= a < symbols.len() && symbols[a] == symbol;
            lemma_lex_irreflexive(symbol);
            if a < at {
                assert(lex_lt(symbols[a], symbol));
            } else {
                assert(lex_lt(symbol, symbols[a]));
            }
        }
    }
    assert(net_quantity(past, symbol) == 0 && total_cost(past, symbol) == 0);
    assert forall|a: int, b: int| 0 <= a < b < s2.len() implies lex_lt(
        #[trigger] s2[a],
        #[trigger] s2[b],
    ) by {
        let oa = if a < at {
            a
        } else {
            a - 1
        };
        let ob = if b < at {
            b
        } else {
            b - 1
        };
        if a != at && b != at {
            assert(s2[a] == symbols[oa] && s2[b] == symbols[ob]);
            assert(lex_lt(symbols[oa], symbols[ob]));
        } else if a == at {
            assert(s2[b] == symbols[ob]);
            assert(lex_lt(symbol, symbols[ob]));
        } else {
            assert(s2[a] == symbols[oa]);
            assert(lex_lt(symbols[oa], symbol));
        }
    }
    assert forall|a: int| 0 <= a < s2.len() implies n2[a] == net_quantity(past, #[trigger] s2[a])
        && cost_view(c2[a]) == cost_basis(past, s2[a]) by {
        if a < at {
            assert(s2[a] == symbols[a]);
        } else if a > at {
            assert(s2[a] == symbols[a - 1]);
        }
    }
    assert forall|other: Seq<u8>| !s2.contains(other) implies #[trigger] net_quantity(past, other)
        == 0 && total_cost(past, other) == 0 by {
        if symbols.contains(other) {
            let a = choose|a: int| 0 <= a < symbols.len() && symbols[a] == other;
            if a < at {
                assert(s2[a] == other);
            } else {
                assert(s2[a + 1] == other);
            }
        }
    }
}

/// One trade more changes the entry of its symbol and no other.
proof fn lemma_tracks_step(
    past: Seq<TradeView>,
    symbols: Seq<Seq<u8>>,
    nets: Seq<i128>,
    costs: Seq<Option<u128>>,
    trade: TradeView,
    at: int,
    net: i128,
    cost: Option<u128>,
)
    requires
        tracks(past, symbols, nets, costs),
        0 <= at < symbols.len(),
        symbols[at] == trade.symbol,
        net == net_quantity(past.push(trade), trade.symbol),
        cost_view(cost) == cost_basis(past.push(trade), trade.symbol),
    ensures
        tracks(past.push(trade), symbols, nets.update(at, net), costs.update(at, cost)),
{
    let longer = past.push(trade);
    assert(longer.drop_last() =~= past);
    assert forall|a: int| 0 <= a < symbols.len() implies nets.update(at, net)[a] == net_quantity(
        longer,
        #[trigger] symbols[a],
    ) && cost_view(costs.update(at, cost)[a]) == cost_basis(longer, symbols[a]) by {
        if a != at {
            lemma_lex_irreflexive(trade.symbol);
            if a < at {
                assert(lex_lt(symbols[a], symbols[at]));
            } else {
                assert(lex_lt(symbols[at], symbols[a]));
            }
            assert(symbols[a] != trade.symbol);
        }
    }
    assert forall|other: Seq<u8>| !symbols.contains(other) implies #[trigger] net_quantity(
        longer,
        other,
    ) == 0 && total_cost(longer, other) == 0 by {
        assert(symbols[at] != other);
        assert(net_quantity(past, other) == 0);
    }
}

/// Finds where `symbol` stands in the ascending run, or where it has to go.
fn locate(symbols: &Vec<Vec<u8>>, symbol: &[u8]) -> (place: (usize, bool))
    requires
        ascending(views(symbols@)),
    ensures
        is_place(views(symbols@), symbol@, place.0 as int, place.1),
{
    let ghost run = views(symbols@);
    let mut at: usize = 0;
    while at < symbols.len() && bytes_lt(symbols[at].as_slice(), symbol)
        invariant
            at <= symbols@.len(),
            run == views(symbols@),
            forall|a: int| 0 <= a < at ==> lex_lt(#[trigger] run[a], symbol@),
        decreases symbols@.len() - at,
    {
        assert(run[at as int] == symbols@[at as int]@);
        at += 1;
    }
    let found = at < symbols.len() && bytes_eq(symbols[at].as_slice(), symbol);
    proof {
        if at < symbols.len() {
            assert(run[at as int] == symbols@[at as int]@);
            if !found {
                lemma_lex_total(run[at as int], symbol@);
                assert forall|a: int| at <= a < run.len() implies lex_lt(
                    symbol@,
                    #[trigger] run[a],
                ) by {
                    if a > at {
                        assert(lex_lt(run[at as int], run[a]));
                        lemma_lex_transitive(symbol@, run[at as int], run[a]);
                    }
                }
            }
        }
    }
    (at, found)
}

/// What the cost becomes with one trade more: the sum, as long as it fits.
fn add_cost(cost: Option<u128>, side: Side, quantity: i64, price: i64) -> (out: Option<u128>)
    ensures
        cost_view(out) == match cost {
            Some(c) if c + cost_term(side, quantity, price) <= u128::MAX => Some(
                c + cost_term(side, quantity, price),
            ),
            _ => None::<int>,
        },
{
    match cost {
        None => None,
        Some(c) => {
            let buying = match side {
                Side::Buy => true,
                Side::Sell => false,
            };
            if buying && quantity > 0 && price >= 0 {
                let q = quantity as u128;
                let p = price as u128;
                assert(q * p <= 0x7fff_ffff_ffff_ffff * 0x7fff_ffff_ffff_ffff) by (nonlinear_arith)
                    requires
                        q <= 0x7fff_ffff_ffff_ffff,
                        p <= 0x7fff_ffff_ffff_ffff,
                ;
                let term: u128 = q * p;
                if term > u128::MAX - c {
                    None
                } else {
                    Some(c + term)
                }
            } else {
                Some(c)
            }
        },
    }
}

/// The portfolio of the ledger: for each stock of which the trades, replayed
/// in order of time, leave a net quantity other than zero, its position;
/// in ascending order of the symbols.
pub fn port(ledger: &Ledger) -> (positions: Vec<Position>)
    ensures
        is_portfolio(chronological(ledger@), position_views(positions@)),
{
    let n = ledger.len();
    let order = ledger.time_order();
    let ghost timed = chronological(ledger@);
    proof {
        lemma_time_order(ledger@);
    }
    let mut symbols: Vec<Vec<u8>> = Vec::new();
    let mut nets: Vec<i128> = Vec::new();
    let mut costs: Vec<Option<u128>> = Vec::new();
    let mut k: usize = 0;
    proof {
        assert(timed.take(0) =~= Seq::<TradeView>::empty());
        assert forall|symbol: Seq<u8>| #[trigger]
            net_quantity(timed.take(0), symbol) == 0 && total_cost(timed.take(0), symbol) == 0 by {}
    }
    while k < n
        invariant
            k <= n,
            n == ledger@.len(),
            timed == chronological(ledger@),
            timed.len() == n,
            as_ints(order@) == time_order(ledger@),
            arranges(time_order(ledger@), n as int),
            tracks(timed.take(k as int), views(symbols@), nets@, costs@),
        decreases n - k,
    {
        let ghost past = timed.take(k as int);
        let ghost upto = timed.take(k + 1);
        assert(order@[k as int] as int == as_ints(order@)[k as int]);
        let trade = ledger.get(order[k]);
        assert(trade@ == timed[k as int]);
        assert(upto =~= past.push(trade@));
        assert(upto.drop_last() =~= past);
        let (at, found) = locate(&symbols, trade.symbol.as_slice());
        if !found {
            let ghost run = views(symbols@);
            proof {
                lemma_tracks_new(past, run, nets@, costs@, trade@.symbol, at as int);
            }
            symbols.insert(at, copy_bytes(trade.symbol.as_slice()));
            nets.insert(at, 0);
            costs.insert(at, Some(0));
            assert(views(symbols@) =~= run.insert(at as int, trade@.symbol));
        }
        let ghost run = views(symbols@);
        assert(run[at as int] == trade@.symbol);
        let before = nets[at];
        assert(before == net_quantity(past, run[at as int]));
        proof {
            lemma_fold_bounds(past, trade@.symbol);
            lemma_fold_bounds(upto, trade@.symbol);
            assert(upto.len() * 0x8000_0000_0000_0000 <= 0xffff_ffff_ffff_ffff
                * 0x8000_0000_0000_0000) by (nonlinear_arith)
                requires
                    upto.len() <= 0xffff_ffff_ffff_ffff,
            ;
        }
        let net: i128 = match trade.side {
            Side::Buy => before + trade.quantity as i128,
            Side::Sell => before - trade.quantity as i128,
        };
        let cost = add_cost(costs[at], trade.side, trade.quantity, trade.price);
        proof {
            assert(cost_view(costs@[at as int]) == cost_basis(past, run[at as int]));
            lemma_purchase_cost(trade@);
            lemma_tracks_step(past, run, nets@, costs@, trade@, at as int, net, cost);
        }
        nets.set(at, net);
        costs.set(at, cost);
        k += 1;
    }
    assert(timed.take(n as int) =~= timed);
    let ghost run = views(symbols@);
    let mut positions: Vec<Position> = Vec::new();
    let ghost mut origin: Seq<int> = Seq::empty();
    let mut i: usize = 0;
    while i < symbols.len()
        invariant
            i <= symbols@.len(),
            run == views(symbols@),
            tracks(timed, run, nets@, costs@),
            origin.len() == positions@.len(),
            forall|x: int| 0 <= x < origin.len() ==> 0 <= #[trigger] origin[x] < i,
            forall|x: int, y: int| 0 <= x < y < origin.len() ==> origin[x] < origin[y],
            forall|x: int|
                0 <= x < origin.len() ==> (#[trigger] positions@[x])@ == position_of(
                    timed,
                    run[origin[x]],
                ) && positions@[x].net_quantity != 0,
            forall|a: int| 0 <= a < i && nets@[a] != 0 ==> #[trigger] origin.contains(a),
        decreases symbols@.len() - i,
    {
        assert(run[i as int] == symbols@[i as int]@);
        assert(nets@[i as int] == net_quantity(timed, run[i as int]));
        assert(cost_view(costs@[i as int]) == cost_basis(timed, run[i as int]));
        if nets[i] != 0 {
            let ghost old_origin = origin;
            let position = Position {
                symbol: copy_bytes(symbols[i].as_slice()),
                net_quantity: nets[i],
                cost_basis: costs[i],
            };
            positions.push(position);
            proof {
                origin = origin.push(i as int);
                assert forall|a: int| 0 <= a < i + 1 && nets@[a] != 0 implies #[trigger]
                    origin.contains(a) by {
                    if a < i {
                        assert(old_origin.contains(a));
                        let x = choose|x: int| 0 <= x < old_origin.len() && old_origin[x] == a;
                        assert(origin[x] == a);
                    } else {
                        assert(origin[origin.len() - 1] == a);
                    }
                }
            }
        }
        i += 1;
    }
    proof {
        let out = position_views(positions@);
        assert forall|k: int| 0 <= k < out.len() implies #[trigger] out[k] == position_of(
            timed,
            out[k].symbol,
        ) && out[k].net_quantity != 0 by {
            assert(positions@[k]@ == position_of(timed, run[origin[k]]));
        }
        assert forall|a: int, b: int| 0 <= a < b < out.len() implies lex_lt(
            #[trigger] symbols_of(out)[a],
            #[trigger] symbols_of(out)[b],
        ) by {
            assert(positions@[a]@ == position_of(timed, run[origin[a]]));
            assert(positions@[b]@ == position_of(timed, run[origin[b]]));
            assert(lex_lt(run[origin[a]], run[origin[b]]));
        }
        assert forall|symbol: Seq<u8>| #[trigger]
            net_quantity(timed, symbol) != 0 implies symbols_of(out).contains(symbol) by {
            assert(run.contains(symbol));
            let a = choose|a: int| 0 <= a < run.len() && run[a] == symbol;
            assert(nets@[a] != 0);
            assert(origin.contains(a));
            let x = choose|x: int| 0 <= x < origin.len() && origin[x] == a;
            assert(positions@[x]@ == position_of(timed, run[origin[x]]));
            assert(symbols_of(out)[x] == symbol);
        }
    }
    positions
}

} // verus!
