//! The failures that the store reports.

use vstd::prelude::*;

verus! {

/// One of the two stored sections of a data directory.
#[derive(Clone, Copy, Debug, PartialEq, Eq)]
pub enum Section {
    /// The list of stocks.
    Registry,
    /// The sequence of trades.
    Ledger,
}

/// The kind of a failure, without its details.
#[derive(Clone, Copy, Debug, PartialEq, Eq)]
pub enum ErrorKind {
    AlreadyInitialized,
    NotInitialized,
    Corrupt,
    FormatError,
    DuplicateSymbol,
    UnknownSymbol,
    InvalidQuantity,
    InvalidPrice,
    Oversell,
}

/// A failure of a store operation.
///
/// Lines are counted from zero within their section.
#[derive(Clone, Copy, Debug, PartialEq, Eq)]
pub enum Error {
    /// The data directory is already there and no reset was asked for.
    AlreadyInitialized,
    /// The data directory lacks one of its sections.
    NotInitialized,
    /// A section is there but cannot be read back. `cause` is the kind of
    /// the failure that stopped the load, at `line` of `section`.
    Corrupt { section: Section, line: usize, cause: ErrorKind },
    /// The line does not have the shape of a record of its section. For a
    /// record that was to be added, `line` is where it would have stood.
    FormatError { section: Section, line: usize },
    /// The stock on this line of the registry repeats an earlier symbol.
    /// For a stock that was to be added, `line` is where it would have stood.
    DuplicateSymbol { line: usize },
    /// The trade names a symbol that the registry does not hold.
    UnknownSymbol,
    /// The trade's quantity is not positive.
    InvalidQuantity,
    /// The trade's price is negative.
    InvalidPrice,
    /// The sale exceeds what was held of the stock at its time.
    Oversell,
}

/// The failure of opening a directory whose section failed to load with
/// `inner`.
pub open spec fn corrupt_from(inner: Error) -> Error {
    match inner {
        Error::FormatError { section, line } => Error::Corrupt {
            section,
            line,
            cause: ErrorKind::FormatError,
        },
        Error::DuplicateSymbol { line } => Error::Corrupt {
            section: Section::Registry,
            line,
            cause: ErrorKind::DuplicateSymbol,
        },
        other => other,
    }
}

impl Error {
    /// The kind of this failure.
    pub open spec fn spec_kind(&self) -> ErrorKind {
        match *self {
            Error::AlreadyInitialized => ErrorKind::AlreadyInitialized,
            Error::NotInitialized => ErrorKind::NotInitialized,
            Error::Corrupt { .. } => ErrorKind::Corrupt,
            Error::FormatError { .. } => ErrorKind::FormatError,
            Error::DuplicateSymbol { .. } => ErrorKind::DuplicateSymbol,
            Error::UnknownSymbol => ErrorKind::UnknownSymbol,
            Error::InvalidQuantity => ErrorKind::InvalidQuantity,
            Error::InvalidPrice => ErrorKind::InvalidPrice,
            Error::Oversell => ErrorKind::Oversell,
        }
    }

    /// The kinds along the chain of causes, outermost first.
    pub open spec fn spec_chain(&self) -> Seq<ErrorKind> {
        match *self {
            Error::Corrupt { cause, .. } => seq![ErrorKind::Corrupt, cause],
            _ => seq![self.spec_kind()],
        }
    }

    /// The kind of this failure.
    #[verifier::when_used_as_spec(spec_kind)]
    pub fn kind(&self) -> (kind: ErrorKind)
        ensures
            kind == self.spec_kind(),
    {
        match self {
            Error::AlreadyInitialized => ErrorKind::AlreadyInitialized,
            Error::NotInitialized => ErrorKind::NotInitialized,
            Error::Corrupt { .. } => ErrorKind::Corrupt,
            Error::FormatError { .. } => ErrorKind::FormatError,
            Error::DuplicateSymbol { .. } => ErrorKind::DuplicateSymbol,
            Error::UnknownSymbol => ErrorKind::UnknownSymbol,
            Error::InvalidQuantity => ErrorKind::InvalidQuantity,
            Error::InvalidPrice => ErrorKind::InvalidPrice,
            Error::Oversell => ErrorKind::Oversell,
        }
    }

    /// The failure of opening a directory whose section failed to load with
    /// this failure.
    pub fn into_corrupt(self) -> (outer: Error)
        ensures
            outer == corrupt_from(self),
    {
        match self {
            Error::FormatError { section, line } => Error::Corrupt {
                section,
                line,
                cause: ErrorKind::FormatError,
            },
            Error::DuplicateSymbol { line } => Error::Corrupt {
                section: Section::Registry,
                line,
                cause: ErrorKind::DuplicateSymbol,
            },
            other => other,
        }
    }

    /// The kinds along the chain of causes, outermost first.
    pub fn chain(&self) -> (kinds: Vec<ErrorKind>)
        ensures
            kinds@ == self.spec_chain(),
    {
        let mut kinds: Vec<ErrorKind> = Vec::new();
        kinds.push(self.kind());
        match self {
            Error::Corrupt { cause, .. } => {
                kinds.push(*cause);
            },
            _ => {},
        }
        assert(kinds@ =~= self.spec_chain());
        kinds
    }

    /// A one-line summary of the failure.
    pub fn message(&self) -> (text: &'static str)
        ensures
            text@ == message_of(self.spec_kind()),
    {
        match self {
            Error::AlreadyInitialized => "the data directory is already initialized",
            Error::NotInitialized => "the data directory is not initialized",
            Error::Corrupt { .. } => "the data directory is corrupt",
            Error::FormatError { .. } => "a stored line is malformed",
            Error::DuplicateSymbol { .. } => "a stock symbol occurs twice",
            Error::UnknownSymbol => "a trade names an unknown stock symbol",
            Error::InvalidQuantity => "a trade's quantity is not positive",
            Error::InvalidPrice => "a trade's price is negative",
            Error::Oversell => "a sale exceeds the quantity held",
        }
    }
}

/// The summary line for each kind of failure.
pub open spec fn message_of(kind: ErrorKind) -> Seq<char> {
    match kind {
        ErrorKind::AlreadyInitialized => "the data directory is already initialized"@,
        ErrorKind::NotInitialized => "the data directory is not initialized"@,
        ErrorKind::Corrupt => "the data directory is corrupt"@,
        ErrorKind::FormatError => "a stored line is malformed"@,
        ErrorKind::DuplicateSymbol => "a stock symbol occurs twice"@,
        ErrorKind::UnknownSymbol => "a trade names an unknown stock symbol"@,
        ErrorKind::InvalidQuantity => "a trade's quantity is not positive"@,
        ErrorKind::InvalidPrice => "a trade's price is negative"@,
        ErrorKind::Oversell => "a sale exceeds the quantity held"@,
    }
}

} // verus!
