//! A file-backed ledger of stock trades and the portfolio derived from it.
//!
//! A data directory holds two sections: the registry of stocks and the
//! ledger of trades. [`store::Store`] loads both, checks them, lists the
//! trades and folds them into a portfolio. Reading and writing the files is
//! left to the caller, who hands the bytes of the sections in and out.

pub mod error;
pub mod integrity;
pub mod ledger;
pub mod number;
pub mod portfolio;
pub mod query;
pub mod record;
pub mod registry;
pub mod store;
pub mod text;
pub mod timeline;

pub use error::{Error, ErrorKind, Section};
pub use ledger::Ledger;
pub use portfolio::Position;
pub use query::TradeLine;
pub use record::{Side, StockRecord, TradeRecord};
pub use registry::Registry;
pub use store::{DataDir, Store};
