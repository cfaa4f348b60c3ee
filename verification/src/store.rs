//! The store: one data directory with its registry and its ledger.
//!
//! The store does not touch the file system. The caller reads the data
//! directory into a [`DataDir`] and writes a [`DataDir`] back; everything
//! between the two is decided here.

use vstd::prelude::*;
use crate::integrity::{
    audit, check, faults_of, lemma_all_stocks_validated, validated_stocks, validated_trades,
};
use crate::error::{corrupt_from, Error};
use crate::ledger::{
    append_fault, decode_ledger, encode_ledger, ledger_wf, lemma_ledger_round_trip, Ledger,
};
use crate::portfolio::{is_portfolio, port, position_views, Position};
use crate::query::{filter_view, line_views, select, trades, TradeLine};
use crate::record::{stock_storable, StockRecord, StockView, TradeRecord, TradeView};
use crate::registry::{
    decode_registry, encode_registry, holds_symbol, lemma_registry_round_trip, registry_wf,
    Registry,
};
use crate::error::Section;
use crate::timeline::chronological;

verus! {

/// What a data directory holds: the bytes of each section, where it is
/// there.
#[derive(Clone, Debug, PartialEq, Eq)]
pub struct DataDir {
    /// The registry section.
    pub registry: Option<Vec<u8>>,
    /// The ledger section.
    pub ledger: Option<Vec<u8>>,
}

/// The mathematical value of a [`DataDir`].
pub struct DataDirView {
    pub registry: Option<Seq<u8>>,
    pub ledger: Option<Seq<u8>>,
}

impl View for DataDir {
    type V = DataDirView;

    open spec fn view(&self) -> DataDirView {
        DataDirView {
            registry: match self.registry {
                Some(bytes) => Some(bytes@),
                None => None,
            },
            ledger: match self.ledger {
                Some(bytes) => Some(bytes@),
                None => None,
            },
        }
    }
}

/// The stocks and trades of a store.
pub struct Contents {
    pub stocks: Seq<StockView>,
    pub trades: Seq<TradeView>,
}

/// The data directory that holds the contents.
pub open spec fn image_of(contents: Contents) -> DataDirView {
    DataDirView {
        registry: Some(encode_registry(contents.stocks)),
        ledger: Some(encode_ledger(contents.trades)),
    }
}

/// The outcome of opening a data directory. A directory that lacks a
/// section is not initialized. Otherwise the registry is loaded, then the
/// ledger; the first that fails to load makes the directory corrupt.
pub open spec fn open_outcome(dir: DataDirView) -> Result<Contents, Error> {
    match (dir.registry, dir.ledger) {
        (Some(registry), Some(ledger)) => match decode_registry(registry) {
            Err(e) => Err(corrupt_from(e)),
            Ok(stocks) => match decode_ledger(ledger) {
                Err(e) => Err(corrupt_from(e)),
                Ok(trades) => Ok(Contents { stocks, trades }),
            },
        },
        _ => Err(Error::NotInitialized),
    }
}

/// The outcome of initializing a data directory: refused where the
/// directory is there and no reset is asked for, else an empty store.
pub open spec fn new_outcome(present: bool, force: bool) -> Result<Contents, Error> {
    if present && !force {
        Err(Error::AlreadyInitialized)
    } else {
        Ok(Contents { stocks: Seq::empty(), trades: Seq::empty() })
    }
}

/// Opening the directory written for a store gives its stocks and trades
/// back, in their order.
pub proof fn lemma_reopen(contents: Contents)
    requires
        registry_wf(contents.stocks),
        ledger_wf(contents.trades),
        contents.stocks.len() <= usize::MAX,
    ensures
        open_outcome(image_of(contents)) == Ok::<Contents, Error>(contents),
{
    lemma_registry_round_trip(contents.stocks);
    lemma_ledger_round_trip(contents.trades);
}

/// Opening a directory that was just initialized gives a store without
/// trades and without stocks.
pub proof fn lemma_open_after_new(present: bool, force: bool)
    requires
        new_outcome(present, force) is Ok,
    ensures
        open_outcome(image_of(new_outcome(present, force)->Ok_0)) == Ok::<Contents, Error>(
            Contents { stocks: Seq::empty(), trades: Seq::empty() },
        ),
{
    lemma_reopen(new_outcome(present, force)->Ok_0);
}

/// Initializing fails on a directory that is there unless a reset is asked
/// for; with a reset it always succeeds, and what it gives is empty whatever
/// the directory held.
pub proof fn lemma_new_respects_force(present: bool)
    ensures
        present ==> new_outcome(present, false) == Err::<Contents, Error>(
            Error::AlreadyInitialized,
        ),
        new_outcome(present, true) == Ok::<Contents, Error>(
            Contents { stocks: Seq::empty(), trades: Seq::empty() },
        ),
        new_outcome(false, false) is Ok,
{
}

/// The outcome of checking a data directory: the failure of opening it, or
/// else the number of validated trades and the number of validated stocks.
pub open spec fn check_outcome(dir: DataDirView) -> Result<(nat, nat), Error> {
    match open_outcome(dir) {
        Err(e) => Err(e),
        Ok(contents) => Ok(
            (
                validated_trades(contents.stocks, contents.trades),
                validated_stocks(contents.stocks),
            ),
        ),
    }
}

/// Checks what a data directory holds. A section that is missing or cannot
/// be read fails the check; entries that can be read but are inconsistent
/// lower the counts.
pub fn check_dir(dir: &DataDir) -> (out: Result<(usize, usize), Error>)
    ensures
        match out {
            Ok(counts) => check_outcome(dir@) == Ok::<(nat, nat), Error>(
                (counts.0 as nat, counts.1 as nat),
            ),
            Err(e) => check_outcome(dir@) == Err::<(nat, nat), Error>(e),
        },
{
    match Store::open(String::new(), dir) {
        Ok(store) => Ok(store.check()),
        Err(e) => Err(e),
    }
}

/// A data directory with its registry and its ledger in memory.
pub struct Store {
    home_dir: String,
    registry: Registry,
    ledger: Ledger,
}

impl Store {
    /// The stocks and trades that the store holds.
    pub closed spec fn contents(&self) -> Contents {
        Contents { stocks: self.registry@, trades: self.ledger@ }
    }

    /// The path of the data directory, as text.
    pub closed spec fn home(&self) -> Seq<char> {
        self.home_dir@
    }

    /// The invariant of a store: those of its registry and its ledger.
    pub open spec fn wf(&self) -> bool {
        registry_wf(self.contents().stocks) && ledger_wf(self.contents().trades)
    }

    /// Initializes a data directory. `present` says whether the directory
    /// is there already; `force` asks for a reset of one that is. The
    /// directory is to be written from [`Store::image`].
    pub fn new(home_dir: String, present: bool, force: bool) -> (out: Result<Store, Error>)
        ensures
            match out {
                Ok(store) => store.wf() && store.home() == home_dir@ && new_outcome(
                    present,
                    force,
                ) == Ok::<Contents, Error>(store.contents()),
                Err(e) => new_outcome(present, force) == Err::<Contents, Error>(e),
            },
    {
        if present && !force {
            return Err(Error::AlreadyInitialized);
        }
        Ok(Store { home_dir, registry: Registry::new(), ledger: Ledger::new() })
    }

    /// Opens a data directory from what it holds.
    pub fn open(home_dir: String, dir: &DataDir) -> (out: Result<Store, Error>)
        ensures
            match out {
                Ok(store) => store.wf() && store.home() == home_dir@ && open_outcome(dir@)
                    == Ok::<Contents, Error>(store.contents()),
                Err(e) => open_outcome(dir@) == Err::<Contents, Error>(e),
            },
    {
        match (&dir.registry, &dir.ledger) {
            (Some(registry_bytes), Some(ledger_bytes)) => {
                let registry = match Registry::load(registry_bytes.as_slice()) {
                    Ok(registry) => registry,
                    Err(e) => {
                        return Err(e.into_corrupt());
                    },
                };
                let ledger = match Ledger::load(ledger_bytes.as_slice()) {
                    Ok(ledger) => ledger,
                    Err(e) => {
                        return Err(e.into_corrupt());
                    },
                };
                Ok(Store { home_dir, registry, ledger })
            },
            _ => Err(Error::NotInitialized),
        }
    }

    /// The path of the data directory.
    pub fn home_dir(&self) -> (path: &String)
        ensures
            path@ == self.home(),
    {
        &self.home_dir
    }

    /// What the data directory has to hold for this store.
    pub fn image(&self) -> (dir: DataDir)
        ensures
            dir@ == image_of(self.contents()),
    {
        DataDir { registry: Some(self.registry.encode()), ledger: Some(self.ledger.encode()) }
    }

    /// The registry of the store.
    pub fn registry(&self) -> (registry: &Registry)
        ensures
            registry@ == self.contents().stocks,
    {
        &self.registry
    }

    /// The ledger of the store.
    pub fn ledger(&self) -> (ledger: &Ledger)
        ensures
            ledger@ == self.contents().trades,
    {
        &self.ledger
    }

    /// Adds a stock to the registry. See [`Registry::add`].
    pub fn add_stock(&mut self, stock: StockRecord) -> (out: Result<(), Error>)
        requires
            old(self).wf(),
        ensures
            final(self).wf(),
            final(self).home() == old(self).home(),
            final(self).contents().trades == old(self).contents().trades,
            !stock_storable(stock@) ==> out == Err::<(), Error>(
                Error::FormatError {
                    section: Section::Registry,
                    line: old(self).contents().stocks.len() as usize,
                },
            ),
            stock_storable(stock@) && holds_symbol(old(self).contents().stocks, stock@.symbol)
                ==> out == Err::<(), Error>(
                Error::DuplicateSymbol { line: old(self).contents().stocks.len() as usize },
            ),
            stock_storable(stock@) && !holds_symbol(old(self).contents().stocks, stock@.symbol)
                ==> out is Ok,
            out is Ok ==> final(self).contents().stocks == old(self).contents().stocks.push(
                stock@,
            ),
            out is Err ==> final(self).contents().stocks == old(self).contents().stocks,
    {
        self.registry.add(stock)
    }

    /// Appends a trade to the ledger. See [`Ledger::append`].
    pub fn append_trade(&mut self, trade: TradeRecord) -> (out: Result<(), Error>)
        requires
            old(self).wf(),
        ensures
            final(self).wf(),
            final(self).home() == old(self).home(),
            final(self).contents().stocks == old(self).contents().stocks,
            match append_fault(
                old(self).contents().stocks,
                old(self).contents().trades.len() as int,
                trade@,
            ) {
                Some(e) => out == Err::<(), Error>(e) && final(self).contents().trades == old(
                    self,
                ).contents().trades,
                None => out is Ok && final(self).contents().trades == old(
                    self,
                ).contents().trades.push(trade@),
            },
    {
        self.ledger.append(&self.registry, trade)
    }

    /// Checks the store: the number of trades that are consistent when the
    /// ledger is replayed in order of time, then the number of consistent
    /// stocks. Inconsistent entries lower the counts and never fail the
    /// check; what cannot be read fails [`Store::open`] before.
    pub fn check(&self) -> (counts: (usize, usize))
        requires
            self.wf(),
        ensures
            counts.0 == validated_trades(self.contents().stocks, self.contents().trades),
            counts.1 == validated_stocks(self.contents().stocks),
            counts.1 == self.contents().stocks.len(),
    {
        proof {
            lemma_all_stocks_validated(self.registry@);
        }
        check(&self.registry, &self.ledger)
    }

    /// For each trade, by its position in stored order, what is wrong with
    /// it, if anything.
    pub fn audit(&self) -> (faults: Vec<Option<Error>>)
        requires
            self.wf(),
        ensures
            faults_of(self.contents().stocks, self.contents().trades, faults@),
    {
        audit(&self.registry, &self.ledger)
    }

    /// The trades with the display names of their stocks, in stored order:
    /// all of them, or those whose display name holds `name_substring`.
    pub fn trades(&self, name_substring: Option<&[u8]>) -> (lines: Vec<TradeLine>)
        requires
            self.wf(),
        ensures
            line_views(lines@) == select(
                self.contents().stocks,
                self.contents().trades,
                filter_view(name_substring),
            ),
    {
        trades(&self.registry, &self.ledger, name_substring)
    }

    /// The portfolio: the positions that are not zero, in ascending order
    /// of their symbols.
    pub fn port(&self) -> (positions: Vec<Position>)
        ensures
            is_portfolio(chronological(self.contents().trades), position_views(positions@)),
    {
        port(&self.ledger)
    }
}

} // verus!
