use lupo::error::{Error, Section};
use lupo::ledger::Ledger;
use lupo::number::{parse_i64, parse_u64, push_i64, push_u64};
use lupo::record::{parse_side, Side, StockRecord, TradeRecord};
use lupo::registry::Registry;
use lupo::text::{bytes_eq, bytes_lt, contains_bytes, copy_bytes, lacks_byte, push_bytes, split_bytes};

fn written_u64(n: u64) -> Vec<u8> {
    let mut out = Vec::new();
    push_u64(&mut out, n);
    out
}

fn written_i64(x: i64) -> Vec<u8> {
    let mut out = Vec::new();
    push_i64(&mut out, x);
    out
}

#[test]
fn split_cuts_at_every_separator() {
    assert_eq!(split_bytes(b"", b','), vec![Vec::<u8>::new()]);
    assert_eq!(split_bytes(b"abc", b','), vec![b"abc".to_vec()]);
    assert_eq!(split_bytes(b"a,b", b','), vec![b"a".to_vec(), b"b".to_vec()]);
    assert_eq!(
        split_bytes(b",a,,b,", b','),
        vec![b"".to_vec(), b"a".to_vec(), b"".to_vec(), b"b".to_vec(), b"".to_vec()]
    );
}

#[test]
fn byte_helpers_agree_with_std() {
    assert!(bytes_eq(b"abc", b"abc"));
    assert!(!bytes_eq(b"abc", b"abd"));
    assert!(!bytes_eq(b"abc", b"ab"));
    assert!(bytes_eq(b"", b""));
    assert_eq!(copy_bytes(b"hello"), b"hello".to_vec());
    let mut out = b"ab".to_vec();
    push_bytes(&mut out, b"cd");
    assert_eq!(out, b"abcd".to_vec());
    assert!(lacks_byte(b"abc", b'd'));
    assert!(!lacks_byte(b"abc", b'c'));
}

#[test]
fn bytes_lt_is_the_order_of_a_dictionary() {
    let words: [&[u8]; 7] = [b"", b"A", b"AA", b"AAPL", b"AAPLE", b"AB", b"a"];
    for (i, a) in words.iter().enumerate() {
        for (j, b) in words.iter().enumerate() {
            assert_eq!(bytes_lt(a, b), i < j, "{:?} < {:?}", a, b);
            assert_eq!(bytes_lt(a, b), a < b);
        }
    }
    assert!(bytes_lt(&[1, 255], &[2]));
    assert!(!bytes_lt(&[200], &[100, 1]));
}

#[test]
fn contains_finds_runs_of_bytes() {
    assert!(contains_bytes(b"Apple Inc.", b"Apple"));
    assert!(contains_bytes(b"Apple Inc.", b"Inc."));
    assert!(contains_bytes(b"Apple Inc.", b"le I"));
    assert!(contains_bytes(b"Apple Inc.", b""));
    assert!(contains_bytes(b"", b""));
    assert!(contains_bytes(b"aab", b"ab"));
    assert!(!contains_bytes(b"Apple Inc.", b"apple"));
    assert!(!contains_bytes(b"Apple Inc.", b"Apple Inc.."));
    assert!(!contains_bytes(b"", b"a"));
    assert!(!contains_bytes(b"abab", b"abb"));
}

#[test]
fn numbers_are_written_without_leading_zeros() {
    assert_eq!(written_u64(0), b"0".to_vec());
    assert_eq!(written_u64(7), b"7".to_vec());
    assert_eq!(written_u64(10), b"10".to_vec());
    assert_eq!(written_u64(1234567890), b"1234567890".to_vec());
    assert_eq!(written_u64(u64::MAX), b"18446744073709551615".to_vec());
    assert_eq!(written_i64(0), b"0".to_vec());
    assert_eq!(written_i64(-1), b"-1".to_vec());
    assert_eq!(written_i64(i64::MAX), b"9223372036854775807".to_vec());
    assert_eq!(written_i64(i64::MIN), b"-9223372036854775808".to_vec());
}

#[test]
fn numbers_are_read_strictly() {
    assert_eq!(parse_u64(b"0"), Some(0));
    assert_eq!(parse_u64(b"007"), Some(7));
    assert_eq!(parse_u64(b"18446744073709551615"), Some(u64::MAX));
    assert_eq!(parse_u64(b"18446744073709551616"), None);
    assert_eq!(parse_u64(b"99999999999999999999"), None);
    assert_eq!(parse_u64(b"184467440737095516150"), None);
    assert_eq!(parse_u64(b""), None);
    assert_eq!(parse_u64(b"-1"), None);
    assert_eq!(parse_u64(b"+1"), None);
    assert_eq!(parse_u64(b"1 "), None);
    assert_eq!(parse_u64(b"1a"), None);
    assert_eq!(parse_i64(b"0"), Some(0));
    assert_eq!(parse_i64(b"-0"), Some(0));
    assert_eq!(parse_i64(b"-12"), Some(-12));
    assert_eq!(parse_i64(b"9223372036854775807"), Some(i64::MAX));
    assert_eq!(parse_i64(b"9223372036854775808"), None);
    assert_eq!(parse_i64(b"-9223372036854775808"), Some(i64::MIN));
    assert_eq!(parse_i64(b"-9223372036854775809"), None);
    assert_eq!(parse_i64(b"-"), None);
    assert_eq!(parse_i64(b""), None);
    assert_eq!(parse_i64(b"--1"), None);
    assert_eq!(parse_i64(b"1-"), None);
}

#[test]
fn numbers_read_back_as_written() {
    for n in [0u64, 1, 9, 10, 99, 100, 12345, u64::MAX - 1, u64::MAX] {
        assert_eq!(parse_u64(&written_u64(n)), Some(n));
    }
    for x in [0i64, 1, -1, 10, -10, 4711, -4711, i64::MAX, i64::MIN, i64::MIN + 1] {
        assert_eq!(parse_i64(&written_i64(x)), Some(x));
    }
}

#[test]
fn sides_are_words() {
    assert_eq!(parse_side(b"buy"), Some(Side::Buy));
    assert_eq!(parse_side(b"sell"), Some(Side::Sell));
    assert_eq!(parse_side(b"Buy"), None);
    assert_eq!(parse_side(b"sel"), None);
    assert_eq!(parse_side(b"sells"), None);
    assert_eq!(parse_side(b""), None);
}

#[test]
fn stock_line_has_three_fields() {
    let stock = StockRecord {
        symbol: b"AAPL".to_vec(),
        name: b"Apple Inc.".to_vec(),
        currency: Some(b"USD".to_vec()),
    };
    let mut line = Vec::new();
    stock.encode_into(&mut line);
    assert_eq!(line, b"AAPL\tApple Inc.\tUSD".to_vec());
    assert_eq!(StockRecord::decode(&line), Some(stock.duplicate()));
    assert!(stock.is_storable());

    let bare = StockRecord { symbol: b"X".to_vec(), name: Vec::new(), currency: None };
    let mut line = Vec::new();
    bare.encode_into(&mut line);
    assert_eq!(line, b"X\t\t".to_vec());
    assert_eq!(StockRecord::decode(&line), Some(bare));

    assert_eq!(StockRecord::decode(b""), None);
    assert_eq!(StockRecord::decode(b"AAPL"), None);
    assert_eq!(StockRecord::decode(b"AAPL\tApple"), None);
    assert_eq!(StockRecord::decode(b"\tApple\tUSD"), None);
    assert_eq!(StockRecord::decode(b"AAPL\tApple\tUSD\t"), None);
}

#[test]
fn trade_line_has_six_fields() {
    let trade = TradeRecord {
        id: 42,
        timestamp: -5,
        symbol: b"AAPL".to_vec(),
        side: Side::Sell,
        quantity: 10,
        price: 12345,
    };
    let mut line = b"> ".to_vec();
    trade.encode_into(&mut line);
    assert_eq!(line, b"> 42\t-5\tAAPL\tsell\t10\t12345".to_vec());
    assert_eq!(TradeRecord::decode(&line[2..]), Some(trade.duplicate()));
    assert!(trade.is_storable());

    let odd = TradeRecord::decode(b"0\t0\t\tbuy\t-1\t-2").unwrap();
    assert_eq!(odd.symbol, Vec::<u8>::new());
    assert_eq!(odd.quantity, -1);
    assert_eq!(odd.price, -2);
    assert_eq!(odd.side, Side::Buy);

    assert_eq!(TradeRecord::decode(b""), None);
    assert_eq!(TradeRecord::decode(b"1\t2\tAAPL\tbuy\t10"), None);
    assert_eq!(TradeRecord::decode(b"1\t2\tAAPL\tbuy\t10\t1\t"), None);
    assert_eq!(TradeRecord::decode(b"-1\t2\tAAPL\tbuy\t10\t1"), None);
    assert_eq!(TradeRecord::decode(b"1\tx\tAAPL\tbuy\t10\t1"), None);
    assert_eq!(TradeRecord::decode(b"1\t2\tAAPL\tBUY\t10\t1"), None);
    assert_eq!(TradeRecord::decode(b"1\t2\tAAPL\tbuy\t1.5\t1"), None);
    assert_eq!(TradeRecord::decode(b"1\t2\tAAPL\tbuy\t10\t"), None);
}

#[test]
fn registry_loads_in_stored_order() {
    let registry = Registry::load(b"B\tBeta\t\nA\tAlpha\tEUR\n").ok().unwrap();
    assert_eq!(registry.len(), 2);
    assert_eq!(registry.get(0).symbol, b"B".to_vec());
    assert_eq!(registry.get(1).currency, Some(b"EUR".to_vec()));
    assert_eq!(registry.get(0).currency, None);
    assert_eq!(registry.encode(), b"B\tBeta\t\nA\tAlpha\tEUR\n".to_vec());
    assert_eq!(Registry::load(b"").ok().unwrap().len(), 0);
    assert_eq!(Registry::new().encode(), Vec::<u8>::new());
}

#[test]
fn registry_load_reports_the_first_fault() {
    let format = |line| Some(Error::FormatError { section: Section::Registry, line });
    assert_eq!(Registry::load(b"\n").err(), format(0));
    assert_eq!(Registry::load(b"A\tAlpha\t").err(), format(0));
    assert_eq!(Registry::load(b"A\tAlpha\t\nB").err(), format(1));
    assert_eq!(Registry::load(b"A\tAlpha\t\n\nB\tBeta\t\n").err(), format(1));
    assert_eq!(
        Registry::load(b"A\tAlpha\t\nA\tAgain\t\nbad\n").err(),
        Some(Error::DuplicateSymbol { line: 1 })
    );
    assert_eq!(Registry::load(b"A\tAlpha\t\nbad\nA\tAgain\t\n").err(), format(1));
}

#[test]
fn ledger_loads_in_stored_order() {
    let bytes = b"2\t20\tB\tsell\t1\t1\n1\t10\tA\tbuy\t-1\t-1\n";
    let ledger = Ledger::load(bytes).ok().unwrap();
    assert_eq!(ledger.len(), 2);
    assert_eq!(ledger.get(0).id, 2);
    assert_eq!(ledger.get(1).id, 1);
    assert_eq!(ledger.encode(), bytes.to_vec());
    assert_eq!(ledger.time_order(), vec![1, 0]);
    assert_eq!(Ledger::load(b"").ok().unwrap().len(), 0);
}

#[test]
fn ledger_load_reports_the_first_fault() {
    let format = |line| Some(Error::FormatError { section: Section::Ledger, line });
    assert_eq!(Ledger::load(b"\n").err(), format(0));
    assert_eq!(Ledger::load(b"1\t1\tA\tbuy\t1\t1").err(), format(0));
    assert_eq!(Ledger::load(b"1\t1\tA\tbuy\t1\t1\n1\t1\tA\tbuy\t1\n").err(), format(1));
    assert_eq!(Ledger::load(b"1\t1\tA\tbuy\t1\t1\r\n").err(), format(0));
}

#[test]
fn time_order_sorts_by_timestamp_then_stored_order() {
    let bytes = b"0\t5\tA\tbuy\t1\t1\n1\t3\tA\tbuy\t1\t1\n2\t5\tA\tbuy\t1\t1\n3\t-1\tA\tbuy\t1\t1\n4\t3\tA\tbuy\t1\t1\n";
    let ledger = Ledger::load(bytes).ok().unwrap();
    assert_eq!(ledger.time_order(), vec![3, 1, 4, 0, 2]);
}
