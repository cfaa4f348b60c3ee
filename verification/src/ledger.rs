//! The trade ledger: the trades in the order in which they were stored, and
//! the order in which they took place.

use vstd::prelude::*;
use crate::error::{Error, Section};
use crate::record::{
    decode_trade, encode_trade, lemma_decoded_trade_storable, lemma_trade_round_trip,
    trade_storable, StockView, TradeRecord, TradeView, NEWLINE,
};
use crate::registry::{holds_symbol, Registry};
use crate::text::{
    encode_lines, free_of, lemma_split_lines, lemma_split_pieces, split, split_bytes, views,
};

verus! {

/// The mathematical values of a run of trade records.
pub open spec fn trade_views(records: Seq<TradeRecord>) -> Seq<TradeView> {
    Seq::new(records.len(), |i: int| records[i]@)
}

/// The invariant of a ledger: every trade is storable.
pub open spec fn ledger_wf(trades: Seq<TradeView>) -> bool {
    forall|i: int| 0 <= i < trades.len() ==> trade_storable(#[trigger] trades[i])
}

/// The outcome of reading trades from lines, in order: the trades, or the
/// failure at the first malformed line.
pub open spec fn parse_trades(lines: Seq<Seq<u8>>) -> Result<Seq<TradeView>, Error>
    decreases lines.len(),
{
    if lines.len() == 0 {
        Ok(Seq::<TradeView>::empty())
    } else {
        match parse_trades(lines.drop_last()) {
            Err(e) => Err(e),
            Ok(trades) => match decode_trade(lines.last()) {
                None => Err(
                    Error::FormatError {
                        section: Section::Ledger,
                        line: (lines.len() - 1) as usize,
                    },
                ),
                Some(trade) => Ok(trades.push(trade)),
            },
        }
    }
}

/// The outcome of loading the ledger section: every line must end with a
/// newline and hold a trade. Bytes after the last newline count as one
/// more, malformed, line.
pub open spec fn decode_ledger(bytes: Seq<u8>) -> Result<Seq<TradeView>, Error> {
    let pieces = split(bytes, NEWLINE);
    match parse_trades(pieces.drop_last()) {
        Err(e) => Err(e),
        Ok(trades) => if pieces.last().len() == 0 {
            Ok(trades)
        } else {
            Err(
                Error::FormatError {
                    section: Section::Ledger,
                    line: (pieces.len() - 1) as usize,
                },
            )
        },
    }
}

/// The lines of the trades, without their newlines.
pub open spec fn trade_lines(trades: Seq<TradeView>) -> Seq<Seq<u8>> {
    Seq::new(trades.len(), |i: int| encode_trade(trades[i]))
}

/// The ledger section that holds the trades.
pub open spec fn encode_ledger(trades: Seq<TradeView>) -> Seq<u8> {
    encode_lines(trade_lines(trades), NEWLINE)
}

/// Once reading has failed on some of the lines, it fails in the same way
/// on any continuation of them.
pub proof fn lemma_parse_trades_failed(lines: Seq<Seq<u8>>, k: int)
    requires
        0 <= k <= lines.len(),
        parse_trades(lines.take(k)) is Err,
    ensures
        parse_trades(lines) == parse_trades(lines.take(k)),
    decreases lines.len() - k,
{
    if k == lines.len() {
        assert(lines.take(k) =~= lines);
    } else {
        assert(lines.take(k + 1).drop_last() =~= lines.take(k));
        lemma_parse_trades_failed(lines, k + 1);
    }
}

/// What was read from lines without newline satisfies the ledger's
/// invariant, and there is one trade per line.
pub proof fn lemma_parse_trades_wf(lines: Seq<Seq<u8>>)
    requires
        forall|i: int| 0 <= i < lines.len() ==> free_of(#[trigger] lines[i], NEWLINE),
        parse_trades(lines) is Ok,
    ensures
        ledger_wf(parse_trades(lines)->Ok_0),
        parse_trades(lines)->Ok_0.len() == lines.len(),
    decreases lines.len(),
{
    if lines.len() > 0 {
        lemma_parse_trades_wf(lines.drop_last());
        lemma_decoded_trade_storable(lines.last());
    }
}

/// Reading the lines of storable trades gives the trades back.
pub proof fn lemma_parse_trade_lines(trades: Seq<TradeView>)
    requires
        ledger_wf(trades),
    ensures
        parse_trades(trade_lines(trades)) == Ok::<Seq<TradeView>, Error>(trades),
    decreases trades.len(),
{
    let lines = trade_lines(trades);
    if trades.len() == 0 {
        assert(trades =~= Seq::<TradeView>::empty());
    } else {
        let before = trades.drop_last();
        assert(lines.drop_last() =~= trade_lines(before));
        lemma_parse_trade_lines(before);
        lemma_trade_round_trip(trades.last());
        assert(before.push(trades.last()) =~= trades);
    }
}

/// Loading the section written for storable trades gives the trades back,
/// in the same order.
pub proof fn lemma_ledger_round_trip(trades: Seq<TradeView>)
    requires
        ledger_wf(trades),
    ensures
        decode_ledger(encode_ledger(trades)) == Ok::<Seq<TradeView>, Error>(trades),
{
    let lines = trade_lines(trades);
    assert forall|i: int| 0 <= i < lines.len() implies free_of(#[trigger] lines[i], NEWLINE) by {
        lemma_trade_round_trip(trades[i]);
    }
    lemma_split_lines(lines, NEWLINE);
    assert(lines.push(Seq::<u8>::empty()).drop_last() =~= lines);
    lemma_parse_trade_lines(trades);
}

/// The outcome of appending a trade: a trade that cannot be stored is
/// malformed, then its quantity must be positive, then the registry must
/// hold its symbol.
pub open spec fn append_fault(stocks: Seq<StockView>, at: int, trade: TradeView) -> Option<Error> {
    if !trade_storable(trade) {
        Some(Error::FormatError { section: Section::Ledger, line: at as usize })
    } else if trade.quantity <= 0 {
        Some(Error::InvalidQuantity)
    } else if !holds_symbol(stocks, trade.symbol) {
        Some(Error::UnknownSymbol)
    } else {
        None
    }
}

/// The trades, in the order in which they were stored. Trades are only
/// ever added at the end.
pub struct Ledger {
    trades: Vec<TradeRecord>,
}

impl View for Ledger {
    type V = Seq<TradeView>;

    closed spec fn view(&self) -> Seq<TradeView> {
        trade_views(self.trades@)
    }
}

/// A position in a ledger, from which the trades that follow can be taken
/// one at a time.
pub struct TradeCursor<'a> {
    ledger: &'a Ledger,
    next: usize,
}

impl<'a> TradeCursor<'a> {
    /// The trades that the cursor walks over.
    pub closed spec fn source(&self) -> Seq<TradeView> {
        self.ledger@
    }

    /// How many trades the cursor has handed out.
    pub closed spec fn position(&self) -> nat {
        self.next as nat
    }

    /// Hands out the next trade in stored order, or `None` behind the last.
    pub fn next(&mut self) -> (out: Option<&'a TradeRecord>)
        ensures
            final(self).source() == old(self).source(),
            match out {
                Some(trade) => old(self).position() < old(self).source().len() && trade@ == old(
                    self,
                ).source()[old(self).position() as int] && final(self).position() == old(
                    self,
                ).position() + 1,
                None => old(self).position() >= old(self).source().len() && final(self).position()
                    == old(self).position(),
            },
    {
        if self.next < self.ledger.trades.len() {
            let trade = &self.ledger.trades[self.next];
            self.next = self.next + 1;
            Some(trade)
        } else {
            None
        }
    }
}

impl Ledger {
    /// The invariant that every ledger handed out by this module has.
    pub open spec fn wf(&self) -> bool {
        ledger_wf(self@)
    }

    /// A ledger without trades.
    pub fn new() -> (ledger: Ledger)
        ensures
            ledger.wf(),
            ledger@ == Seq::<TradeView>::empty(),
    {
        let ledger = Ledger { trades: Vec::new() };
        assert(ledger@ =~= Seq::<TradeView>::empty());
        ledger
    }

    /// The number of trades.
    pub fn len(&self) -> (n: usize)
        ensures
            n == self@.len(),
    {
        self.trades.len()
    }

    /// The trade at position `i` of the stored order.
    pub fn get(&self, i: usize) -> (trade: &TradeRecord)
        requires
            i < self@.len(),
        ensures
            trade@ == self@[i as int],
    {
        &self.trades[i]
    }

    /// A cursor in front of the first trade. Each call starts anew.
    pub fn iterate(&self) -> (cursor: TradeCursor<'_>)
        ensures
            cursor.source() == self@,
            cursor.position() == 0,
    {
        TradeCursor { ledger: self, next: 0 }
    }

    /// Adds a trade behind the others, if it can be stored, its quantity is
    /// positive and the registry holds its symbol. A refusal leaves the
    /// ledger as it was.
    pub fn append(&mut self, registry: &Registry, trade: TradeRecord) -> (out: Result<(), Error>)
        requires
            old(self).wf(),
        ensures
            final(self).wf(),
            match append_fault(registry@, old(self)@.len() as int, trade@) {
                Some(e) => out == Err::<(), Error>(e) && final(self)@ == old(self)@,
                None => out is Ok && final(self)@ == old(self)@.push(trade@),
            },
    {
        let line = self.trades.len();
        if !trade.is_storable() {
            return Err(Error::FormatError { section: Section::Ledger, line });
        }
        if trade.quantity <= 0 {
            return Err(Error::InvalidQuantity);
        }
        if registry.find(trade.symbol.as_slice()).is_none() {
            return Err(Error::UnknownSymbol);
        }
        let ghost before = self@;
        self.trades.push(trade);
        assert(self@ =~= before.push(trade@));
        Ok(())
    }

    /// Loads the ledger from its stored section.
    pub fn load(bytes: &[u8]) -> (out: Result<Ledger, Error>)
        ensures
            match out {
                Ok(ledger) => ledger.wf() && decode_ledger(bytes@) == Ok::<Seq<TradeView>, Error>(
                    ledger@,
                ),
                Err(e) => decode_ledger(bytes@) == Err::<Seq<TradeView>, Error>(e),
            },
    {
        let mut pieces = split_bytes(bytes, NEWLINE);
        proof {
            lemma_split_pieces(bytes@, NEWLINE);
        }
        let ghost lines = split(bytes@, NEWLINE).drop_last();
        let tail = pieces.pop();
        assert(views(pieces@) =~= lines);
        let mut ledger = Ledger { trades: Vec::new() };
        assert(ledger@ =~= Seq::<TradeView>::empty());
        assert(lines.take(0) =~= Seq::<Seq<u8>>::empty());
        let mut i: usize = 0;
        while i < pieces.len()
            invariant
                i <= pieces@.len(),
                views(pieces@) == lines,
                split(bytes@, NEWLINE).len() >= 1,
                lines == split(bytes@, NEWLINE).drop_last(),
                parse_trades(lines.take(i as int)) == Ok::<Seq<TradeView>, Error>(ledger@),
            decreases pieces@.len() - i,
        {
            let ghost upto = lines.take(i + 1);
            assert(upto.drop_last() =~= lines.take(i as int));
            assert(upto.last() == pieces@[i as int]@);
            match TradeRecord::decode(pieces[i].as_slice()) {
                None => {
                    proof {
                        lemma_parse_trades_failed(lines, i + 1);
                    }
                    return Err(Error::FormatError { section: Section::Ledger, line: i });
                },
                Some(trade) => {
                    let ghost before = ledger@;
                    ledger.trades.push(trade);
                    assert(ledger@ =~= before.push(trade@));
                },
            }
            i += 1;
        }
        assert(lines.take(lines.len() as int) =~= lines);
        match tail {
            Some(rest) => {
                if rest.len() != 0 {
                    return Err(Error::FormatError { section: Section::Ledger, line: pieces.len() });
                }
            },
            None => {},
        }
        proof {
            lemma_parse_trades_wf(lines);
        }
        Ok(ledger)
    }

    /// The stored section that holds the ledger.
    pub fn encode(&self) -> (bytes: Vec<u8>)
        ensures
            bytes@ == encode_ledger(self@),
    {
        let mut bytes: Vec<u8> = Vec::new();
        let ghost lines = trade_lines(self@);
        assert(lines.take(0) =~= Seq::<Seq<u8>>::empty());
        let mut i: usize = 0;
        while i < self.trades.len()
            invariant
                i <= self.trades@.len(),
                lines == trade_lines(self@),
                bytes@ == encode_lines(lines.take(i as int), NEWLINE),
            decreases self.trades@.len() - i,
        {
            let ghost upto = lines.take(i + 1);
            assert(upto.drop_last() =~= lines.take(i as int));
            assert(upto.last() == encode_trade(self.trades@[i as int]@));
            self.trades[i].encode_into(&mut bytes);
            bytes.push(NEWLINE);
            assert(bytes@ =~= encode_lines(upto, NEWLINE));
            i += 1;
        }
        assert(lines.take(lines.len() as int) =~= lines);
        bytes
    }
}

} // verus!
