//! The records of the two sections and how each stands on its line.
//!
//! A record takes one line. Its fields are separated by a tab; a stock has
//! three (symbol, display name, currency or nothing), a trade has six
//! (identifier, timestamp, symbol, side, quantity, price).

use vstd::prelude::*;
use crate::number::{
    decode_i64, decode_u64, encode_int, encode_nat, lemma_decode_encode_i64,
    lemma_decode_encode_u64, lemma_encode_int_bytes, lemma_encode_nat, parse_i64, parse_u64,
    push_i64, push_u64,
};
use crate::text::{
    copy_bytes, free_of, join, lacks_byte, lemma_join_free, lemma_join_extend, lemma_split_free, lemma_split_join,
    lemma_split_pieces, push_bytes, split, split_bytes, views,
};

verus! {

/// The byte that separates the fields of a line.
pub const TAB: u8 = 9;

/// The byte that ends a line.
pub const NEWLINE: u8 = 10;

/// Whether `s` can stand in a field: it holds neither a tab nor a newline.
pub open spec fn plain_text(s: Seq<u8>) -> bool {
    free_of(s, TAB) && free_of(s, NEWLINE)
}

/// Whether `s` can stand in a field.
pub fn is_plain_text(s: &[u8]) -> (plain: bool)
    ensures
        plain == plain_text(s@),
{
    lacks_byte(s, TAB) && lacks_byte(s, NEWLINE)
}

/// A stock as the registry holds it.
#[derive(Clone, Debug, PartialEq, Eq)]
pub struct StockRecord {
    /// The key under which trades name the stock.
    pub symbol: Vec<u8>,
    /// The name shown for the stock.
    pub name: Vec<u8>,
    /// The currency the stock is quoted in, if known.
    pub currency: Option<Vec<u8>>,
}

/// The mathematical value of a [`StockRecord`].
pub struct StockView {
    pub symbol: Seq<u8>,
    pub name: Seq<u8>,
    pub currency: Option<Seq<u8>>,
}

impl View for StockRecord {
    type V = StockView;

    open spec fn view(&self) -> StockView {
        StockView {
            symbol: self.symbol@,
            name: self.name@,
            currency: match self.currency {
                Some(c) => Some(c@),
                None => None,
            },
        }
    }
}

/// Whether a stock can be stored: its symbol is not empty, its fields are
/// plain text, and its currency, if given, is not empty.
pub open spec fn stock_storable(stock: StockView) -> bool {
    &&& stock.symbol.len() > 0
    &&& plain_text(stock.symbol)
    &&& plain_text(stock.name)
    &&& stock.currency matches Some(c) ==> c.len() > 0 && plain_text(c)
}

/// The three fields of a stock's line.
pub open spec fn stock_fields(stock: StockView) -> Seq<Seq<u8>> {
    seq![
        stock.symbol,
        stock.name,
        match stock.currency {
            Some(c) => c,
            None => Seq::<u8>::empty(),
        },
    ]
}

/// The line of a stock, without its newline.
pub open spec fn encode_stock(stock: StockView) -> Seq<u8> {
    join(stock_fields(stock), TAB)
}

/// The stock that a line holds, if it has the shape of one.
pub open spec fn decode_stock(line: Seq<u8>) -> Option<StockView> {
    let fields = split(line, TAB);
    if fields.len() == 3 && fields[0].len() > 0 {
        Some(
            StockView {
                symbol: fields[0],
                name: fields[1],
                currency: if fields[2].len() == 0 {
                    None
                } else {
                    Some(fields[2])
                },
            },
        )
    } else {
        None
    }
}

/// A storable stock is read back from its line as it was, and its line
/// holds no newline.
pub proof fn lemma_stock_round_trip(stock: StockView)
    requires
        stock_storable(stock),
    ensures
        decode_stock(encode_stock(stock)) == Some(stock),
        free_of(encode_stock(stock), NEWLINE),
{
    let fields = stock_fields(stock);
    lemma_split_join(fields, TAB);
    lemma_join_free(fields, TAB, NEWLINE);
}

/// A stock read from a line without newline is storable.
pub proof fn lemma_decoded_stock_storable(line: Seq<u8>)
    requires
        free_of(line, NEWLINE),
        decode_stock(line) is Some,
    ensures
        stock_storable(decode_stock(line)->0),
{
    lemma_split_pieces(line, TAB);
    lemma_split_free(line, TAB, NEWLINE);
    let fields = split(line, TAB);
    assert(free_of(fields[0], TAB) && free_of(fields[1], TAB) && free_of(fields[2], TAB));
    assert(free_of(fields[0], NEWLINE) && free_of(fields[1], NEWLINE) && free_of(
        fields[2],
        NEWLINE,
    ));
}

impl StockRecord {
    /// Whether the stock can be stored.
    pub fn is_storable(&self) -> (ok: bool)
        ensures
            ok == stock_storable(self@),
    {
        let currency_ok = match &self.currency {
            Some(c) => c.len() > 0 && is_plain_text(c.as_slice()),
            None => true,
        };
        self.symbol.len() > 0 && is_plain_text(self.symbol.as_slice()) && is_plain_text(
            self.name.as_slice(),
        ) && currency_ok
    }

    /// A copy of the stock.
    pub fn duplicate(&self) -> (copy: StockRecord)
        ensures
            copy@ == self@,
    {
        StockRecord {
            symbol: copy_bytes(self.symbol.as_slice()),
            name: copy_bytes(self.name.as_slice()),
            currency: match &self.currency {
                Some(c) => Some(copy_bytes(c.as_slice())),
                None => None,
            },
        }
    }

    /// Reads a stock from a line, given without its newline.
    pub fn decode(line: &[u8]) -> (out: Option<StockRecord>)
        ensures
            match out {
                Some(stock) => decode_stock(line@) == Some(stock@),
                None => decode_stock(line@) is None,
            },
    {
        let mut fields = split_bytes(line, TAB);
        let ghost pieces = views(fields@);
        if fields.len() != 3 {
            return None;
        }
        if fields[0].len() == 0 {
            assert(pieces[0] == fields@[0]@);
            return None;
        }
        assert(pieces[0] == fields@[0]@ && pieces[1] == fields@[1]@ && pieces[2] == fields@[2]@);
        let third = fields.pop();
        let second = fields.pop();
        let first = fields.pop();
        match (first, second, third) {
            (Some(symbol), Some(name), Some(last)) => {
                let currency = if last.len() == 0 {
                    None
                } else {
                    Some(last)
                };
                Some(StockRecord { symbol, name, currency })
            },
            _ => None,
        }
    }

    /// Appends the stock's line, without newline, to `out`.
    pub fn encode_into(&self, out: &mut Vec<u8>)
        ensures
            final(out)@ == old(out)@ + encode_stock(self@),
    {
        let ghost base = out@;
        push_bytes(out, self.symbol.as_slice());
        out.push(TAB);
        push_bytes(out, self.name.as_slice());
        out.push(TAB);
        let ghost mid = out@;
        match &self.currency {
            Some(c) => {
                push_bytes(out, c.as_slice());
            },
            None => {
                assert(out@ =~= mid + Seq::<u8>::empty());
            },
        }
        proof {
            let f = stock_fields(self@);
            lemma_three_fields(base, f[0], f[1], f[2]);
            assert(f =~= seq![f[0], f[1], f[2]]);
        }
    }
}

/// Three fields written one after another with tabs between them make up
/// the joined line.
proof fn lemma_three_fields(base: Seq<u8>, a: Seq<u8>, b: Seq<u8>, c: Seq<u8>)
    ensures
        ((base + a).push(TAB) + b).push(TAB) + c == base + join(seq![a, b, c], TAB),
{
    lemma_join_extend(base, seq![a], b, TAB);
    assert(seq![a].push(b) =~= seq![a, b]);
    lemma_join_extend(base, seq![a, b], c, TAB);
    assert(seq![a, b].push(c) =~= seq![a, b, c]);
}

/// Six fields written one after another with tabs between them make up the
/// joined line.
proof fn lemma_six_fields(
    base: Seq<u8>,
    a: Seq<u8>,
    b: Seq<u8>,
    c: Seq<u8>,
    d: Seq<u8>,
    e: Seq<u8>,
    g: Seq<u8>,
)
    ensures
        (((((base + a).push(TAB) + b).push(TAB) + c).push(TAB) + d).push(TAB) + e).push(TAB) + g
            == base + join(seq![a, b, c, d, e, g], TAB),
{
    lemma_three_fields(base, a, b, c);
    lemma_join_extend(base, seq![a, b, c], d, TAB);
    assert(seq![a, b, c].push(d) =~= seq![a, b, c, d]);
    lemma_join_extend(base, seq![a, b, c, d], e, TAB);
    assert(seq![a, b, c, d].push(e) =~= seq![a, b, c, d, e]);
    lemma_join_extend(base, seq![a, b, c, d, e], g, TAB);
    assert(seq![a, b, c, d, e].push(g) =~= seq![a, b, c, d, e, g]);
}

/// Whether a trade buys or sells.
#[derive(Clone, Copy, Debug, PartialEq, Eq)]
pub enum Side {
    Buy,
    Sell,
}

/// A trade as the ledger holds it.
#[derive(Clone, Debug, PartialEq, Eq)]
pub struct TradeRecord {
    /// The trade's identifier.
    pub id: u64,
    /// When the trade took place, in seconds since the epoch.
    pub timestamp: i64,
    /// The symbol of the stock traded.
    pub symbol: Vec<u8>,
    /// Whether the stock was bought or sold.
    pub side: Side,
    /// How many units were traded.
    pub quantity: i64,
    /// The price of one unit, in hundredths of the currency.
    pub price: i64,
}

/// The mathematical value of a [`TradeRecord`].
pub struct TradeView {
    pub id: u64,
    pub timestamp: i64,
    pub symbol: Seq<u8>,
    pub side: Side,
    pub quantity: i64,
    pub price: i64,
}

impl View for TradeRecord {
    type V = TradeView;

    open spec fn view(&self) -> TradeView {
        TradeView {
            id: self.id,
            timestamp: self.timestamp,
            symbol: self.symbol@,
            side: self.side,
            quantity: self.quantity,
            price: self.price,
        }
    }
}

/// The word that stands for a side: `buy` or `sell`.
pub open spec fn side_token(side: Side) -> Seq<u8> {
    match side {
        Side::Buy => seq![98u8, 117u8, 121u8],
        Side::Sell => seq![115u8, 101u8, 108u8, 108u8],
    }
}

/// The side that a field names, if it names one.
pub open spec fn decode_side(field: Seq<u8>) -> Option<Side> {
    if field == side_token(Side::Buy) {
        Some(Side::Buy)
    } else if field == side_token(Side::Sell) {
        Some(Side::Sell)
    } else {
        None
    }
}

/// Whether a trade can be stored: its symbol is plain text.
pub open spec fn trade_storable(trade: TradeView) -> bool {
    plain_text(trade.symbol)
}

/// The six fields of a trade's line.
pub open spec fn trade_fields(trade: TradeView) -> Seq<Seq<u8>> {
    seq![
        encode_nat(trade.id as nat),
        encode_int(trade.timestamp as int),
        trade.symbol,
        side_token(trade.side),
        encode_int(trade.quantity as int),
        encode_int(trade.price as int),
    ]
}

/// The line of a trade, without its newline.
pub open spec fn encode_trade(trade: TradeView) -> Seq<u8> {
    join(trade_fields(trade), TAB)
}

/// The trade that a line holds, if it has the shape of one.
pub open spec fn decode_trade(line: Seq<u8>) -> Option<TradeView> {
    let fields = split(line, TAB);
    if fields.len() == 6 {
        match (
            decode_u64(fields[0]),
            decode_i64(fields[1]),
            decode_side(fields[3]),
            decode_i64(fields[4]),
            decode_i64(fields[5]),
        ) {
            (Some(id), Some(timestamp), Some(side), Some(quantity), Some(price)) => Some(
                TradeView { id, timestamp, symbol: fields[2], side, quantity, price },
            ),
            _ => None,
        }
    } else {
        None
    }
}

/// A storable trade is read back from its line as it was, and its line
/// holds no newline.
pub proof fn lemma_trade_round_trip(trade: TradeView)
    requires
        trade_storable(trade),
    ensures
        decode_trade(encode_trade(trade)) == Some(trade),
        free_of(encode_trade(trade), NEWLINE),
{
    let fields = trade_fields(trade);
    lemma_encode_nat(trade.id as nat);
    lemma_encode_int_bytes(trade.timestamp as int);
    lemma_encode_int_bytes(trade.quantity as int);
    lemma_encode_int_bytes(trade.price as int);
    lemma_decode_encode_u64(trade.id);
    lemma_decode_encode_i64(trade.timestamp);
    lemma_decode_encode_i64(trade.quantity);
    lemma_decode_encode_i64(trade.price);
    assert(plain_text(fields[0]));
    assert(plain_text(fields[1]));
    assert(plain_text(fields[3]));
    assert(plain_text(fields[4]));
    assert(plain_text(fields[5]));
    lemma_split_join(fields, TAB);
    lemma_join_free(fields, TAB, NEWLINE);
    assert(side_token(Side::Buy) != side_token(Side::Sell)) by {
        assert(side_token(Side::Buy).len() != side_token(Side::Sell).len());
    }
}

/// A trade read from a line without newline is storable.
pub proof fn lemma_decoded_trade_storable(line: Seq<u8>)
    requires
        free_of(line, NEWLINE),
        decode_trade(line) is Some,
    ensures
        trade_storable(decode_trade(line)->0),
{
    lemma_split_pieces(line, TAB);
    lemma_split_free(line, TAB, NEWLINE);
    let fields = split(line, TAB);
    assert(free_of(fields[2], TAB));
    assert(free_of(fields[2], NEWLINE));
}

/// Reads the side that a field names.
pub fn parse_side(field: &[u8]) -> (out: Option<Side>)
    ensures
        out == decode_side(field@),
{
    if field.len() == 3 && field[0] == 98 && field[1] == 117 && field[2] == 121 {
        assert(field@ =~= side_token(Side::Buy));
        Some(Side::Buy)
    } else if field.len() == 4 && field[0] == 115 && field[1] == 101 && field[2] == 108
        && field[3] == 108 {
        assert(field@ =~= side_token(Side::Sell));
        assert(side_token(Side::Buy).len() == 3);
        Some(Side::Sell)
    } else {
        proof {
            let buy = side_token(Side::Buy);
            let sell = side_token(Side::Sell);
            if field@ == buy {
                assert(field@.len() == 3 && field@[0] == buy[0] && field@[1] == buy[1]
                    && field@[2] == buy[2]);
            }
            if field@ == sell {
                assert(field@.len() == 4 && field@[0] == sell[0] && field@[1] == sell[1]
                    && field@[2] == sell[2] && field@[3] == sell[3]);
            }
        }
        None
    }
}

impl TradeRecord {
    /// Whether the trade can be stored.
    pub fn is_storable(&self) -> (ok: bool)
        ensures
            ok == trade_storable(self@),
    {
        is_plain_text(self.symbol.as_slice())
    }

    /// A copy of the trade.
    pub fn duplicate(&self) -> (copy: TradeRecord)
        ensures
            copy@ == self@,
    {
        TradeRecord {
            id: self.id,
            timestamp: self.timestamp,
            symbol: copy_bytes(self.symbol.as_slice()),
            side: self.side,
            quantity: self.quantity,
            price: self.price,
        }
    }

    /// Reads a trade from a line, given without its newline.
    pub fn decode(line: &[u8]) -> (out: Option<TradeRecord>)
        ensures
            match out {
                Some(trade) => decode_trade(line@) == Some(trade@),
                None => decode_trade(line@) is None,
            },
    {
        let mut fields = split_bytes(line, TAB);
        let ghost pieces = views(fields@);
        if fields.len() != 6 {
            return None;
        }
        assert(pieces[0] == fields@[0]@ && pieces[1] == fields@[1]@ && pieces[2] == fields@[2]@
            && pieces[3] == fields@[3]@ && pieces[4] == fields@[4]@ && pieces[5] == fields@[5]@);
        let id = parse_u64(fields[0].as_slice());
        let timestamp = parse_i64(fields[1].as_slice());
        let side = parse_side(fields[3].as_slice());
        let quantity = parse_i64(fields[4].as_slice());
        let price = parse_i64(fields[5].as_slice());
        match (id, timestamp, side, quantity, price) {
            (Some(id), Some(timestamp), Some(side), Some(quantity), Some(price)) => {
                let symbol = fields.swap_remove(2);
                Some(TradeRecord { id, timestamp, symbol, side, quantity, price })
            },
            _ => None,
        }
    }

    /// Appends the trade's line, without newline, to `out`.
    pub fn encode_into(&self, out: &mut Vec<u8>)
        ensures
            final(out)@ == old(out)@ + encode_trade(self@),
    {
        let ghost base = out@;
        push_u64(out, self.id);
        out.push(TAB);
        push_i64(out, self.timestamp);
        out.push(TAB);
        push_bytes(out, self.symbol.as_slice());
        out.push(TAB);
        push_side(out, self.side);
        out.push(TAB);
        push_i64(out, self.quantity);
        out.push(TAB);
        push_i64(out, self.price);
        proof {
            let f = trade_fields(self@);
            lemma_six_fields(base, f[0], f[1], f[2], f[3], f[4], f[5]);
            assert(f =~= seq![f[0], f[1], f[2], f[3], f[4], f[5]]);
        }
    }
}

/// Appends the word for a side to `out`.
fn push_side(out: &mut Vec<u8>, side: Side)
    ensures
        final(out)@ == old(out)@ + side_token(side),
{
    match side {
        Side::Buy => {
            out.push(98);
            out.push(117);
            out.push(121);
            assert(out@ =~= old(out)@ + side_token(Side::Buy));
        },
        Side::Sell => {
            out.push(115);
            out.push(101);
            out.push(108);
            out.push(108);
            assert(out@ =~= old(out)@ + side_token(Side::Sell));
        },
    }
}

} // verus!
