use lupo::error::{Error, ErrorKind, Section};
use lupo::record::{Side, StockRecord, TradeRecord};
use lupo::store::{check_dir, DataDir, Store};
use std::collections::BTreeMap;

fn stock(symbol: &str, name: &str) -> StockRecord {
    StockRecord {
        symbol: symbol.as_bytes().to_vec(),
        name: name.as_bytes().to_vec(),
        currency: Some(b"USD".to_vec()),
    }
}

fn trade(id: u64, timestamp: i64, symbol: &str, side: Side, quantity: i64, price: i64) -> TradeRecord {
    TradeRecord { id, timestamp, symbol: symbol.as_bytes().to_vec(), side, quantity, price }
}

fn home() -> String {
    String::from("/tmp/ledger")
}

fn dir(registry: &str, ledger: &str) -> DataDir {
    DataDir {
        registry: Some(registry.as_bytes().to_vec()),
        ledger: Some(ledger.as_bytes().to_vec()),
    }
}

fn sample_store() -> Store {
    let mut store = Store::new(home(), false, false).unwrap();
    store.add_stock(stock("AAPL", "Apple Inc.")).unwrap();
    store.add_stock(stock("MSFT", "Microsoft Corporation")).unwrap();
    store.append_trade(trade(1, 100, "AAPL", Side::Buy, 10, 100)).unwrap();
    store.append_trade(trade(2, 200, "AAPL", Side::Sell, 4, 110)).unwrap();
    store.append_trade(trade(3, 300, "MSFT", Side::Buy, 2, 50)).unwrap();
    store
}

#[test]
fn new_on_absent_directory_gives_empty_store() {
    let store = Store::new(home(), false, false).unwrap();
    assert_eq!(store.home_dir(), "/tmp/ledger");
    assert_eq!(store.registry().len(), 0);
    assert_eq!(store.ledger().len(), 0);
    let image = store.image();
    assert_eq!(image.registry, Some(Vec::new()));
    assert_eq!(image.ledger, Some(Vec::new()));
}

#[test]
fn open_after_new_has_no_trades_and_no_stocks() {
    let created = Store::new(home(), false, false).unwrap();
    let opened = Store::open(home(), &created.image()).unwrap();
    assert_eq!(opened.ledger().len(), 0);
    assert_eq!(opened.registry().len(), 0);
    assert_eq!(opened.check(), (0, 0));
    assert!(opened.trades(None).is_empty());
    assert!(opened.port().is_empty());
}

#[test]
fn new_without_force_on_present_directory_fails() {
    let out = Store::new(home(), true, false);
    assert_eq!(out.err(), Some(Error::AlreadyInitialized));
}

#[test]
fn new_with_force_on_present_directory_resets() {
    let before = sample_store();
    assert_eq!(before.ledger().len(), 3);
    let store = Store::new(home(), true, true).unwrap();
    assert_eq!(store.check(), (0, 0));
    let opened = Store::open(home(), &store.image()).unwrap();
    assert_eq!(opened.registry().len(), 0);
    assert_eq!(opened.ledger().len(), 0);
}

#[test]
fn new_with_force_on_absent_directory_succeeds() {
    assert!(Store::new(home(), false, true).is_ok());
}

#[test]
fn open_without_registry_is_not_initialized() {
    let missing = DataDir { registry: None, ledger: Some(Vec::new()) };
    assert_eq!(Store::open(home(), &missing).err(), Some(Error::NotInitialized));
}

#[test]
fn open_without_ledger_is_not_initialized() {
    let missing = DataDir { registry: Some(Vec::new()), ledger: None };
    assert_eq!(Store::open(home(), &missing).err(), Some(Error::NotInitialized));
    let nothing = DataDir { registry: None, ledger: None };
    assert_eq!(Store::open(home(), &nothing).err(), Some(Error::NotInitialized));
}

#[test]
fn open_with_malformed_registry_is_corrupt() {
    let bad = dir("AAPL\tApple Inc.\tUSD\nMSFT only two\tfields\n", "");
    let err = Store::open(home(), &bad).err().unwrap();
    assert_eq!(
        err,
        Error::Corrupt { section: Section::Registry, line: 1, cause: ErrorKind::FormatError }
    );
    assert_eq!(err.kind(), ErrorKind::Corrupt);
    assert_eq!(err.chain(), vec![ErrorKind::Corrupt, ErrorKind::FormatError]);
}

#[test]
fn open_with_repeated_symbol_is_corrupt() {
    let bad = dir("AAPL\tApple Inc.\tUSD\nMSFT\tMicrosoft\t\nAAPL\tApple again\t\n", "");
    assert_eq!(
        Store::open(home(), &bad).err(),
        Some(Error::Corrupt { section: Section::Registry, line: 2, cause: ErrorKind::DuplicateSymbol })
    );
}

#[test]
fn open_with_malformed_ledger_is_corrupt() {
    let bad = dir("AAPL\tApple Inc.\tUSD\n", "1\t100\tAAPL\tbuy\t10\t100\n2\t200\tAAPL\thold\t1\t1\n");
    assert_eq!(
        Store::open(home(), &bad).err(),
        Some(Error::Corrupt { section: Section::Ledger, line: 1, cause: ErrorKind::FormatError })
    );
}

#[test]
fn open_reports_registry_before_ledger() {
    let bad = dir("\tno symbol\t\n", "garbage\n");
    assert_eq!(
        Store::open(home(), &bad).err(),
        Some(Error::Corrupt { section: Section::Registry, line: 0, cause: ErrorKind::FormatError })
    );
}

#[test]
fn open_with_unterminated_last_line_is_corrupt() {
    let bad = dir("AAPL\tApple Inc.\tUSD\n", "1\t100\tAAPL\tbuy\t10\t100\n2\t200\tAAPL\tsell\t4\t110");
    assert_eq!(
        Store::open(home(), &bad).err(),
        Some(Error::Corrupt { section: Section::Ledger, line: 1, cause: ErrorKind::FormatError })
    );
}

#[test]
fn image_holds_one_line_per_record() {
    let store = sample_store();
    let image = store.image();
    assert_eq!(
        image.registry,
        Some(b"AAPL\tApple Inc.\tUSD\nMSFT\tMicrosoft Corporation\tUSD\n".to_vec())
    );
    assert_eq!(
        image.ledger,
        Some(
            b"1\t100\tAAPL\tbuy\t10\t100\n2\t200\tAAPL\tsell\t4\t110\n3\t300\tMSFT\tbuy\t2\t50\n"
                .to_vec()
        )
    );
}

#[test]
fn reopened_store_holds_the_same_records() {
    let store = sample_store();
    let opened = Store::open(home(), &store.image()).unwrap();
    assert_eq!(opened.registry().len(), 2);
    assert_eq!(opened.ledger().len(), 3);
    for i in 0..2 {
        assert_eq!(opened.registry().get(i), store.registry().get(i));
    }
    for i in 0..3 {
        assert_eq!(opened.ledger().get(i), store.ledger().get(i));
    }
    assert_eq!(opened.image(), store.image());
}

#[test]
fn check_counts_every_valid_entry() {
    let store = sample_store();
    assert_eq!(store.check(), (3, 2));
}

#[test]
fn check_does_not_count_a_trade_with_unknown_symbol() {
    let store = sample_store();
    let mut image = store.image();
    let before = Store::open(home(), &image).unwrap().check();
    image.ledger.as_mut().unwrap().extend_from_slice(b"4\t400\tTSLA\tbuy\t1\t700\n");
    let opened = Store::open(home(), &image).unwrap();
    assert_eq!(opened.ledger().len(), 4);
    let after = opened.check();
    assert_eq!(before, (3, 2));
    assert_eq!(after, (3, 2));
    assert_eq!(opened.ledger().len() - after.0, 1);
    assert_eq!(
        opened.audit(),
        vec![None, None, None, Some(Error::UnknownSymbol)]
    );
}

#[test]
fn check_tells_faults_apart() {
    let ledger = "1\t100\tAAPL\tbuy\t0\t100\n\
                  2\t200\tAAPL\tbuy\t5\t-1\n\
                  3\t300\tNONE\tbuy\t-5\t-1\n\
                  4\t400\tAAPL\tsell\t1\t100\n\
                  5\t500\tAAPL\tbuy\t-3\t100\n\
                  6\t600\tAAPL\tbuy\t3\t0\n";
    let opened = Store::open(home(), &dir("AAPL\tApple Inc.\t\n", ledger)).unwrap();
    assert_eq!(
        opened.audit(),
        vec![
            Some(Error::InvalidQuantity),
            Some(Error::InvalidPrice),
            Some(Error::UnknownSymbol),
            Some(Error::Oversell),
            Some(Error::InvalidQuantity),
            None,
        ]
    );
    assert_eq!(opened.check(), (1, 1));
}

#[test]
fn check_replays_in_order_of_time() {
    // Stored order is sell first, but the purchase took place before it.
    let ledger = "1\t200\tAAPL\tsell\t4\t110\n2\t100\tAAPL\tbuy\t10\t100\n";
    let opened = Store::open(home(), &dir("AAPL\tApple Inc.\t\n", ledger)).unwrap();
    assert_eq!(opened.ledger().time_order(), vec![1, 0]);
    assert_eq!(opened.audit(), vec![None, None]);
    assert_eq!(opened.check(), (2, 1));
}

#[test]
fn check_breaks_ties_by_stored_order() {
    // Same timestamp: the sale is stored first, so it is replayed first.
    let ledger = "1\t100\tAAPL\tsell\t4\t110\n2\t100\tAAPL\tbuy\t10\t100\n3\t100\tAAPL\tsell\t10\t1\n";
    let opened = Store::open(home(), &dir("AAPL\tApple Inc.\t\n", ledger)).unwrap();
    assert_eq!(opened.ledger().time_order(), vec![0, 1, 2]);
    assert_eq!(opened.audit(), vec![Some(Error::Oversell), None, None]);
    assert_eq!(opened.check(), (2, 1));
}

#[test]
fn an_oversell_does_not_lower_what_is_held() {
    let ledger = "1\t100\tAAPL\tbuy\t5\t1\n2\t200\tAAPL\tsell\t6\t1\n3\t300\tAAPL\tsell\t5\t1\n4\t400\tAAPL\tsell\t1\t1\n";
    let opened = Store::open(home(), &dir("AAPL\tApple Inc.\t\n", ledger)).unwrap();
    assert_eq!(
        opened.audit(),
        vec![None, Some(Error::Oversell), None, Some(Error::Oversell)]
    );
    assert_eq!(opened.check(), (2, 1));
}

#[test]
fn holdings_are_kept_per_stock() {
    let ledger = "1\t100\tAAPL\tbuy\t5\t1\n2\t200\tMSFT\tsell\t1\t1\n3\t300\tAAPL\tsell\t5\t1\n";
    let registry = "AAPL\tApple Inc.\t\nMSFT\tMicrosoft\t\n";
    let opened = Store::open(home(), &dir(registry, ledger)).unwrap();
    assert_eq!(opened.audit(), vec![None, Some(Error::Oversell), None]);
}

#[test]
fn trades_without_filter_returns_all_in_stored_order() {
    let store = sample_store();
    let lines = store.trades(None);
    assert_eq!(lines.len(), 3);
    let ids: Vec<u64> = lines.iter().map(|l| l.trade.id).collect();
    assert_eq!(ids, vec![1, 2, 3]);
    assert_eq!(lines[0].name, Some(b"Apple Inc.".to_vec()));
    assert_eq!(lines[1].name, Some(b"Apple Inc.".to_vec()));
    assert_eq!(lines[2].name, Some(b"Microsoft Corporation".to_vec()));
    assert_eq!(&lines[1].trade, store.ledger().get(1));
}

#[test]
fn trades_with_filter_returns_the_matching_subset() {
    let store = sample_store();
    let apple: Vec<u64> = store.trades(Some(b"Apple")).iter().map(|l| l.trade.id).collect();
    assert_eq!(apple, vec![1, 2]);
    let soft: Vec<u64> = store.trades(Some(b"soft Corp")).iter().map(|l| l.trade.id).collect();
    assert_eq!(soft, vec![3]);
    let both: Vec<u64> = store.trades(Some(b"c")).iter().map(|l| l.trade.id).collect();
    assert_eq!(both, vec![1, 2, 3]);
    assert!(store.trades(Some(b"XYZ")).is_empty());
}

#[test]
fn trades_filter_tells_upper_from_lower_case() {
    let store = sample_store();
    assert!(store.trades(Some(b"apple")).is_empty());
    assert_eq!(store.trades(Some(b"Apple")).len(), 2);
}

#[test]
fn trades_filter_matches_the_name_not_the_symbol() {
    let store = sample_store();
    assert!(store.trades(Some(b"AAPL")).is_empty());
    assert!(store.trades(Some(b"MSFT")).is_empty());
}

#[test]
fn trades_with_unknown_symbol_have_no_name_and_pass_no_filter() {
    let ledger = "1\t100\tAAPL\tbuy\t1\t1\n2\t200\tTSLA\tbuy\t1\t1\n";
    let opened = Store::open(home(), &dir("AAPL\tApple Inc.\t\n", ledger)).unwrap();
    let all = opened.trades(None);
    assert_eq!(all.len(), 2);
    assert_eq!(all[1].name, None);
    let empty_filter: Vec<u64> = opened.trades(Some(b"")).iter().map(|l| l.trade.id).collect();
    assert_eq!(empty_filter, vec![1]);
}

#[test]
fn port_folds_the_ledger_into_positions() {
    let store = sample_store();
    let positions = store.port();
    assert_eq!(positions.len(), 2);
    assert_eq!(positions[0].symbol, b"AAPL".to_vec());
    assert_eq!(positions[0].net_quantity, 6);
    assert_eq!(positions[0].cost_basis, Some(1000));
    assert_eq!(positions[1].symbol, b"MSFT".to_vec());
    assert_eq!(positions[1].net_quantity, 2);
    assert_eq!(positions[1].cost_basis, Some(100));
}

#[test]
fn port_is_sorted_by_symbol() {
    let mut store = Store::new(home(), false, false).unwrap();
    for symbol in ["MSFT", "AAPL", "AA", "Z", "AAPLE"] {
        store.add_stock(stock(symbol, symbol)).unwrap();
    }
    let mut id = 0;
    for symbol in ["MSFT", "AAPL", "AA", "Z", "AAPLE", "AAPL"] {
        id += 1;
        store.append_trade(trade(id, 1000 - id as i64, symbol, Side::Buy, 1, 1)).unwrap();
    }
    let symbols: Vec<Vec<u8>> = store.port().into_iter().map(|p| p.symbol).collect();
    assert_eq!(
        symbols,
        vec![b"AA".to_vec(), b"AAPL".to_vec(), b"AAPLE".to_vec(), b"MSFT".to_vec(), b"Z".to_vec()]
    );
}

#[test]
fn port_omits_a_stock_sold_to_zero() {
    let mut store = sample_store();
    store.append_trade(trade(4, 400, "MSFT", Side::Sell, 2, 60)).unwrap();
    let positions = store.port();
    assert_eq!(positions.len(), 1);
    assert_eq!(positions[0].symbol, b"AAPL".to_vec());
    assert_eq!(positions[0].net_quantity, 6);
}

#[test]
fn port_keeps_a_negative_position() {
    let ledger = "1\t100\tAAPL\tsell\t4\t110\n";
    let opened = Store::open(home(), &dir("AAPL\tApple Inc.\t\n", ledger)).unwrap();
    let positions = opened.port();
    assert_eq!(positions.len(), 1);
    assert_eq!(positions[0].net_quantity, -4);
    assert_eq!(positions[0].cost_basis, Some(0));
}

#[test]
fn port_cost_basis_counts_purchases_only() {
    let mut store = Store::new(home(), false, false).unwrap();
    store.add_stock(stock("AAPL", "Apple Inc.")).unwrap();
    store.append_trade(trade(1, 1, "AAPL", Side::Buy, 3, 7)).unwrap();
    store.append_trade(trade(2, 2, "AAPL", Side::Sell, 1, 1000)).unwrap();
    store.append_trade(trade(3, 3, "AAPL", Side::Buy, 2, 11)).unwrap();
    let positions = store.port();
    assert_eq!(positions[0].net_quantity, 4);
    assert_eq!(positions[0].cost_basis, Some(3 * 7 + 2 * 11));
}

#[test]
fn port_handles_the_largest_quantities() {
    let mut store = Store::new(home(), false, false).unwrap();
    store.add_stock(stock("AAPL", "Apple Inc.")).unwrap();
    store.append_trade(trade(1, 1, "AAPL", Side::Buy, i64::MAX, i64::MAX)).unwrap();
    store.append_trade(trade(2, 2, "AAPL", Side::Buy, i64::MAX, i64::MAX)).unwrap();
    let positions = store.port();
    assert_eq!(positions[0].net_quantity, 2 * (i64::MAX as i128));
    assert_eq!(positions[0].cost_basis, Some(2 * (i64::MAX as u128) * (i64::MAX as u128)));
    assert_eq!(store.check(), (2, 1));
}

#[test]
fn round_trip_matches_a_reference_fold() {
    let symbols = ["AAPL", "MSFT", "GOOG", "AMZN", "NVDA"];
    let mut store = Store::new(home(), false, false).unwrap();
    for symbol in symbols {
        store.add_stock(stock(symbol, symbol)).unwrap();
    }
    let n: u64 = 200;
    let mut reference: BTreeMap<Vec<u8>, i128> = BTreeMap::new();
    let mut held: BTreeMap<&str, i64> = BTreeMap::new();
    for id in 0..n {
        let symbol = symbols[(id * 7 % 5) as usize];
        let have = *held.get(symbol).unwrap_or(&0);
        let wish = (id % 4 + 1) as i64;
        let (side, quantity) = if id % 3 == 2 && have >= wish { (Side::Sell, wish) } else { (Side::Buy, wish + 1) };
        let signed = if side == Side::Buy { quantity } else { -quantity };
        held.insert(symbol, have + signed);
        *reference.entry(symbol.as_bytes().to_vec()).or_insert(0) += signed as i128;
        store.append_trade(trade(id, 1_000 + id as i64, symbol, side, quantity, 100 + id as i64)).unwrap();
    }
    let opened = Store::open(home(), &store.image()).unwrap();
    assert_eq!(opened.check(), (n as usize, symbols.len()));
    let expected: Vec<(Vec<u8>, i128)> = reference.into_iter().filter(|(_, q)| *q != 0).collect();
    let got: Vec<(Vec<u8>, i128)> =
        opened.port().into_iter().map(|p| (p.symbol, p.net_quantity)).collect();
    assert_eq!(got, expected);
    assert!(!got.is_empty());
}

#[test]
fn add_stock_refuses_a_repeated_symbol() {
    let mut store = sample_store();
    assert_eq!(
        store.add_stock(stock("AAPL", "Another Apple")),
        Err(Error::DuplicateSymbol { line: 2 })
    );
    assert_eq!(store.registry().len(), 2);
}

#[test]
fn add_stock_refuses_what_cannot_be_stored() {
    let mut store = sample_store();
    let malformed = Err(Error::FormatError { section: Section::Registry, line: 2 });
    assert_eq!(store.add_stock(stock("", "No symbol")), malformed);
    assert_eq!(store.add_stock(stock("A\tB", "Tab in symbol")), malformed);
    assert_eq!(store.add_stock(stock("AB", "Newline\nin name")), malformed);
    let mut no_currency = stock("AB", "Empty currency");
    no_currency.currency = Some(Vec::new());
    assert_eq!(store.add_stock(no_currency), malformed);
    assert_eq!(store.add_stock(stock("AAPL", "bad\tname")), malformed);
    assert_eq!(store.registry().len(), 2);
}

#[test]
fn append_trade_validates_quantity_and_symbol() {
    let mut store = sample_store();
    assert_eq!(
        store.append_trade(trade(9, 9, "AAPL", Side::Buy, 0, 1)),
        Err(Error::InvalidQuantity)
    );
    assert_eq!(
        store.append_trade(trade(9, 9, "TSLA", Side::Buy, -1, 1)),
        Err(Error::InvalidQuantity)
    );
    assert_eq!(
        store.append_trade(trade(9, 9, "TSLA", Side::Buy, 1, 1)),
        Err(Error::UnknownSymbol)
    );
    assert_eq!(
        store.append_trade(trade(9, 9, "TS\nLA", Side::Buy, 1, 1)),
        Err(Error::FormatError { section: Section::Ledger, line: 3 })
    );
    assert_eq!(store.ledger().len(), 3);
    assert_eq!(store.append_trade(trade(9, 9, "MSFT", Side::Sell, 1, 1)), Ok(()));
    assert_eq!(store.ledger().len(), 4);
    assert_eq!(store.ledger().get(3).id, 9);
}

#[test]
fn lookup_finds_a_stock_by_symbol() {
    let store = sample_store();
    let found = store.registry().lookup(b"MSFT").unwrap();
    assert_eq!(found.name, b"Microsoft Corporation".to_vec());
    assert_eq!(store.registry().find(b"MSFT"), Some(1));
    assert!(store.registry().lookup(b"msft").is_none());
    assert!(store.registry().lookup(b"MS").is_none());
    assert!(store.registry().lookup(b"").is_none());
}

#[test]
fn iterate_walks_the_ledger_and_starts_anew() {
    let store = sample_store();
    let mut cursor = store.ledger().iterate();
    let mut seen = Vec::new();
    while let Some(t) = cursor.next() {
        seen.push(t.id);
    }
    assert_eq!(seen, vec![1, 2, 3]);
    assert!(cursor.next().is_none());
    let mut again = store.ledger().iterate();
    assert_eq!(again.next().map(|t| t.id), Some(1));
}

#[test]
fn errors_have_a_kind_a_chain_and_a_message() {
    let all = [
        (Error::AlreadyInitialized, ErrorKind::AlreadyInitialized),
        (Error::NotInitialized, ErrorKind::NotInitialized),
        (Error::FormatError { section: Section::Ledger, line: 0 }, ErrorKind::FormatError),
        (Error::DuplicateSymbol { line: 0 }, ErrorKind::DuplicateSymbol),
        (Error::UnknownSymbol, ErrorKind::UnknownSymbol),
        (Error::InvalidQuantity, ErrorKind::InvalidQuantity),
        (Error::InvalidPrice, ErrorKind::InvalidPrice),
        (Error::Oversell, ErrorKind::Oversell),
    ];
    for (error, kind) in all {
        assert_eq!(error.kind(), kind);
        assert_eq!(error.chain(), vec![kind]);
        assert!(!error.message().is_empty());
    }
    assert_eq!(Error::AlreadyInitialized.message(), "the data directory is already initialized");
    let inner = Error::FormatError { section: Section::Ledger, line: 7 };
    assert_eq!(
        inner.into_corrupt(),
        Error::Corrupt { section: Section::Ledger, line: 7, cause: ErrorKind::FormatError }
    );
    assert_eq!(Error::Oversell.into_corrupt(), Error::Oversell);
}

#[test]
fn check_dir_fails_on_what_cannot_be_read() {
    let missing = DataDir { registry: Some(Vec::new()), ledger: None };
    assert_eq!(check_dir(&missing), Err(Error::NotInitialized));
    let bad = dir("AAPL\tApple Inc.\tUSD\n", "1\t100\tAAPL\tbuy\tten\t100\n");
    assert_eq!(
        check_dir(&bad),
        Err(Error::Corrupt { section: Section::Ledger, line: 0, cause: ErrorKind::FormatError })
    );
}

#[test]
fn check_dir_counts_what_can_be_read() {
    // The same trade with a quantity that can be read but is not positive.
    let odd = dir("AAPL\tApple Inc.\tUSD\n", "1\t100\tAAPL\tbuy\t-10\t100\n");
    assert_eq!(check_dir(&odd), Ok((0, 1)));
    assert_eq!(check_dir(&sample_store().image()), Ok((3, 2)));
    assert_eq!(check_dir(&dir("", "")), Ok((0, 0)));
}

#[test]
fn crate_root_names_the_main_types() {
    let store: lupo::Store = sample_store();
    let first: &lupo::TradeRecord = store.ledger().get(0);
    assert_eq!(first.side, lupo::Side::Buy);
    assert_eq!(lupo::Error::Oversell.kind(), lupo::ErrorKind::Oversell);
}
