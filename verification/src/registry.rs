//! The stock registry: the stocks that trades may name, in stored order.

use vstd::prelude::*;
use crate::error::{Error, Section};
use crate::record::{
    decode_stock, encode_stock, lemma_decoded_stock_storable, lemma_stock_round_trip,
    stock_storable, StockRecord, StockView, NEWLINE,
};
use crate::text::{
    bytes_eq, encode_lines, free_of, lemma_split_lines, lemma_split_pieces, split, split_bytes,
    views,
};

verus! {

/// The mathematical values of a run of stock records.
pub open spec fn stock_views(records: Seq<StockRecord>) -> Seq<StockView> {
    Seq::new(records.len(), |i: int| records[i]@)
}

/// Whether one of the stocks has the symbol.
pub open spec fn holds_symbol(stocks: Seq<StockView>, symbol: Seq<u8>) -> bool {
    exists|i: int| 0 <= i < stocks.len() && (#[trigger] stocks[i]).symbol == symbol
}

/// Whether no two of the stocks share a symbol.
pub open spec fn symbols_distinct(stocks: Seq<StockView>) -> bool {
    forall|i: int, j: int|
        0 <= i < j < stocks.len() ==> (#[trigger] stocks[i]).symbol != (#[trigger] stocks[j]).symbol
}

/// The invariant of a registry: every stock is storable and no symbol
/// occurs twice.
pub open spec fn registry_wf(stocks: Seq<StockView>) -> bool {
    &&& forall|i: int| 0 <= i < stocks.len() ==> stock_storable(#[trigger] stocks[i])
    &&& symbols_distinct(stocks)
}

/// The outcome of reading stocks from lines, in order: the stocks, or the
/// failure at the first line that is malformed or repeats a symbol.
pub open spec fn parse_stocks(lines: Seq<Seq<u8>>) -> Result<Seq<StockView>, Error>
    decreases lines.len(),
{
    if lines.len() == 0 {
        Ok(Seq::<StockView>::empty())
    } else {
        match parse_stocks(lines.drop_last()) {
            Err(e) => Err(e),
            Ok(stocks) => match decode_stock(lines.last()) {
                None => Err(
                    Error::FormatError {
                        section: Section::Registry,
                        line: (lines.len() - 1) as usize,
                    },
                ),
                Some(stock) => if holds_symbol(stocks, stock.symbol) {
                    Err(Error::DuplicateSymbol { line: (lines.len() - 1) as usize })
                } else {
                    Ok(stocks.push(stock))
                },
            },
        }
    }
}

/// The outcome of loading the registry section: every line must end with a
/// newline and hold a stock, and no symbol may repeat. Bytes after the last
/// newline count as one more, malformed, line.
pub open spec fn decode_registry(bytes: Seq<u8>) -> Result<Seq<StockView>, Error> {
    let pieces = split(bytes, NEWLINE);
    match parse_stocks(pieces.drop_last()) {
        Err(e) => Err(e),
        Ok(stocks) => if pieces.last().len() == 0 {
            Ok(stocks)
        } else {
            Err(
                Error::FormatError {
                    section: Section::Registry,
                    line: (pieces.len() - 1) as usize,
                },
            )
        },
    }
}

/// The lines of the stocks, without their newlines.
pub open spec fn stock_lines(stocks: Seq<StockView>) -> Seq<Seq<u8>> {
    Seq::new(stocks.len(), |i: int| encode_stock(stocks[i]))
}

/// The registry section that holds the stocks.
pub open spec fn encode_registry(stocks: Seq<StockView>) -> Seq<u8> {
    encode_lines(stock_lines(stocks), NEWLINE)
}

/// Once reading has failed on some of the lines, it fails in the same way
/// on any continuation of them.
pub proof fn lemma_parse_stocks_failed(lines: Seq<Seq<u8>>, k: int)
    requires
        0 <= k <= lines.len(),
        parse_stocks(lines.take(k)) is Err,
    ensures
        parse_stocks(lines) == parse_stocks(lines.take(k)),
    decreases lines.len() - k,
{
    if k == lines.len() {
        assert(lines.take(k) =~= lines);
    } else {
        assert(lines.take(k + 1).drop_last() =~= lines.take(k));
        lemma_parse_stocks_failed(lines, k + 1);
    }
}

/// What was read from lines without newline satisfies the registry's
/// invariant, and there is one stock per line.
pub proof fn lemma_parse_stocks_wf(lines: Seq<Seq<u8>>)
    requires
        forall|i: int| 0 <= i < lines.len() ==> free_of(#[trigger] lines[i], NEWLINE),
        parse_stocks(lines) is Ok,
    ensures
        registry_wf(parse_stocks(lines)->Ok_0),
        parse_stocks(lines)->Ok_0.len() == lines.len(),
    decreases lines.len(),
{
    if lines.len() > 0 {
        lemma_parse_stocks_wf(lines.drop_last());
        lemma_decoded_stock_storable(lines.last());
    }
}

/// Reading the lines of a well-formed run of stocks gives the stocks back.
pub proof fn lemma_parse_stock_lines(stocks: Seq<StockView>)
    requires
        registry_wf(stocks),
        stocks.len() <= usize::MAX,
    ensures
        parse_stocks(stock_lines(stocks)) == Ok::<Seq<StockView>, Error>(stocks),
    decreases stocks.len(),
{
    let lines = stock_lines(stocks);
    if stocks.len() == 0 {
        assert(stocks =~= Seq::<StockView>::empty());
    } else {
        let before = stocks.drop_last();
        assert(lines.drop_last() =~= stock_lines(before));
        lemma_parse_stock_lines(before);
        lemma_stock_round_trip(stocks.last());
        assert(!holds_symbol(before, stocks.last().symbol)) by {
            if holds_symbol(before, stocks.last().symbol) {
                let i = choose|i: int|
                    0 <= i < before.len() && (#[trigger] before[i]).symbol == stocks.last().symbol;
                assert(stocks[i].symbol == stocks[stocks.len() - 1].symbol);
            }
        }
        assert(before.push(stocks.last()) =~= stocks);
    }
}

/// Loading the section written for a well-formed run of stocks gives the
/// stocks back.
pub proof fn lemma_registry_round_trip(stocks: Seq<StockView>)
    requires
        registry_wf(stocks),
        stocks.len() <= usize::MAX,
    ensures
        decode_registry(encode_registry(stocks)) == Ok::<Seq<StockView>, Error>(stocks),
{
    let lines = stock_lines(stocks);
    assert forall|i: int| 0 <= i < lines.len() implies free_of(#[trigger] lines[i], NEWLINE) by {
        lemma_stock_round_trip(stocks[i]);
    }
    lemma_split_lines(lines, NEWLINE);
    assert(lines.push(Seq::<u8>::empty()).drop_last() =~= lines);
    lemma_parse_stock_lines(stocks);
}

/// The stocks that trades may name. No two share a symbol.
pub struct Registry {
    records: Vec<StockRecord>,
}

impl View for Registry {
    type V = Seq<StockView>;

    closed spec fn view(&self) -> Seq<StockView> {
        stock_views(self.records@)
    }
}

impl Registry {
    /// The invariant that every registry handed out by this module has.
    pub open spec fn wf(&self) -> bool {
        registry_wf(self@)
    }

    /// A registry without stocks.
    pub fn new() -> (registry: Registry)
        ensures
            registry.wf(),
            registry@ == Seq::<StockView>::empty(),
    {
        let registry = Registry { records: Vec::new() };
        assert(registry@ =~= Seq::<StockView>::empty());
        registry
    }

    /// The number of stocks.
    pub fn len(&self) -> (n: usize)
        ensures
            n == self@.len(),
    {
        self.records.len()
    }

    /// The stock at position `i` of the stored order.
    pub fn get(&self, i: usize) -> (stock: &StockRecord)
        requires
            i < self@.len(),
        ensures
            stock@ == self@[i as int],
    {
        &self.records[i]
    }

    /// The position of the stock with the symbol.
    pub fn find(&self, symbol: &[u8]) -> (at: Option<usize>)
        ensures
            match at {
                Some(i) => i < self@.len() && self@[i as int].symbol == symbol@,
                None => !holds_symbol(self@, symbol@),
            },
    {
        let mut i: usize = 0;
        while i < self.records.len()
            invariant
                i <= self.records@.len(),
                forall|k: int| 0 <= k < i ==> (#[trigger] self@[k]).symbol != symbol@,
            decreases self.records@.len() - i,
        {
            if bytes_eq(self.records[i].symbol.as_slice(), symbol) {
                return Some(i);
            }
            assert(self@[i as int].symbol == self.records@[i as int].symbol@);
            i += 1;
        }
        None
    }

    /// The stock with the symbol, or `None` where the registry holds none.
    pub fn lookup(&self, symbol: &[u8]) -> (found: Option<&StockRecord>)
        ensures
            match found {
                Some(stock) => stock@.symbol == symbol@ && self@.contains(stock@),
                None => !holds_symbol(self@, symbol@),
            },
    {
        match self.find(symbol) {
            Some(i) => {
                assert(self@[i as int] == self.records@[i as int]@);
                Some(&self.records[i])
            },
            None => None,
        }
    }

    /// Adds a stock behind the others.
    ///
    /// A stock that cannot be stored is refused as malformed; one whose
    /// symbol the registry already holds, as a duplicate. A refusal leaves
    /// the registry as it was.
    pub fn add(&mut self, stock: StockRecord) -> (out: Result<(), Error>)
        requires
            old(self).wf(),
        ensures
            final(self).wf(),
            !stock_storable(stock@) ==> out == Err::<(), Error>(
                Error::FormatError { section: Section::Registry, line: old(self)@.len() as usize },
            ),
            stock_storable(stock@) && holds_symbol(old(self)@, stock@.symbol) ==> out == Err::<
                (),
                Error,
            >(Error::DuplicateSymbol { line: old(self)@.len() as usize }),
            stock_storable(stock@) && !holds_symbol(old(self)@, stock@.symbol) ==> out is Ok,
            out is Ok ==> final(self)@ == old(self)@.push(stock@),
            out is Err ==> final(self)@ == old(self)@,
    {
        let line = self.records.len();
        if !stock.is_storable() {
            return Err(Error::FormatError { section: Section::Registry, line });
        }
        if self.find(stock.symbol.as_slice()).is_some() {
            return Err(Error::DuplicateSymbol { line });
        }
        let ghost before = self@;
        self.records.push(stock);
        assert(self@ =~= before.push(stock@));
        Ok(())
    }

    /// Loads the registry from its stored section.
    pub fn load(bytes: &[u8]) -> (out: Result<Registry, Error>)
        ensures
            match out {
                Ok(registry) => registry.wf() && decode_registry(bytes@) == Ok::<
                    Seq<StockView>,
                    Error,
                >(registry@),
                Err(e) => decode_registry(bytes@) == Err::<Seq<StockView>, Error>(e),
            },
    {
        let mut pieces = split_bytes(bytes, NEWLINE);
        proof {
            lemma_split_pieces(bytes@, NEWLINE);
        }
        let ghost lines = split(bytes@, NEWLINE).drop_last();
        let tail = pieces.pop();
        assert(views(pieces@) =~= lines);
        let mut registry = Registry { records: Vec::new() };
        assert(registry@ =~= Seq::<StockView>::empty());
        assert(lines.take(0) =~= Seq::<Seq<u8>>::empty());
        let mut i: usize = 0;
        while i < pieces.len()
            invariant
                i <= pieces@.len(),
                views(pieces@) == lines,
                split(bytes@, NEWLINE).len() >= 1,
                lines == split(bytes@, NEWLINE).drop_last(),
                parse_stocks(lines.take(i as int)) == Ok::<Seq<StockView>, Error>(registry@),
            decreases pieces@.len() - i,
        {
            let ghost upto = lines.take(i + 1);
            assert(upto.drop_last() =~= lines.take(i as int));
            assert(upto.last() == pieces@[i as int]@);
            match StockRecord::decode(pieces[i].as_slice()) {
                None => {
                    proof {
                        lemma_parse_stocks_failed(lines, i + 1);
                    }
                    return Err(Error::FormatError { section: Section::Registry, line: i });
                },
                Some(stock) => {
                    if registry.find(stock.symbol.as_slice()).is_some() {
                        proof {
                            lemma_parse_stocks_failed(lines, i + 1);
                        }
                        return Err(Error::DuplicateSymbol { line: i });
                    }
                    let ghost before = registry@;
                    registry.records.push(stock);
                    assert(registry@ =~= before.push(stock@));
                },
            }
            i += 1;
        }
        assert(lines.take(lines.len() as int) =~= lines);
        match tail {
            Some(rest) => {
                if rest.len() != 0 {
                    return Err(
                        Error::FormatError { section: Section::Registry, line: pieces.len() },
                    );
                }
            },
            None => {},
        }
        proof {
            lemma_parse_stocks_wf(lines);
        }
        Ok(registry)
    }

    /// The stored section that holds the registry.
    pub fn encode(&self) -> (bytes: Vec<u8>)
        ensures
            bytes@ == encode_registry(self@),
    {
        let mut bytes: Vec<u8> = Vec::new();
        let ghost lines = stock_lines(self@);
        assert(lines.take(0) =~= Seq::<Seq<u8>>::empty());
        let mut i: usize = 0;
        while i < self.records.len()
            invariant
                i <= self.records@.len(),
                lines == stock_lines(self@),
                bytes@ == encode_lines(lines.take(i as int), NEWLINE),
            decreases self.records@.len() - i,
        {
            let ghost upto = lines.take(i + 1);
            assert(upto.drop_last() =~= lines.take(i as int));
            assert(upto.last() == encode_stock(self.records@[i as int]@));
            self.records[i].encode_into(&mut bytes);
            bytes.push(NEWLINE);
            assert(bytes@ =~= encode_lines(upto, NEWLINE));
            i += 1;
        }
        assert(lines.take(lines.len() as int) =~= lines);
        bytes
    }
}

} // verus!
