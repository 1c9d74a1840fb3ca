//! Errors of the reconciliation pipeline.
//!
//! Processing is fail-fast: the first classification, association, lookup
//! or range failure aborts the run. Each variant records what the message
//! needs; `message` renders it for the caller's error stream.

use vstd::prelude::*;
use vstd::string::StringExecFns;

verus! {

/// Why the pipeline stopped.
#[derive(Debug)]
pub enum Error {
    /// A fee activity carries no description.
    FeeWithoutDescription,
    /// A fee description matches none of the known patterns.
    UnclassifiableFee(String),
    /// A classified regulatory fee matches no trade in its batch.
    UnassociatedFee(String),
    /// A symbol has no entry in the registry.
    UnknownSymbol(String),
    /// A dividend record names no symbol.
    DividendWithoutSymbol,
    /// An acquisition record carries no description.
    AcquisitionWithoutDescription,
    /// An acquisition description holds no share price.
    AcquisitionUnparsable(String),
    /// An acquisition record names no symbol.
    AcquisitionWithoutSymbol,
    /// A stock split record names no symbol.
    StockSplitWithoutSymbol,
    /// A stock split record carries no price.
    StockSplitWithoutPrice,
    /// A stock split record carries no quantity.
    StockSplitWithoutQuantity,
    /// An amount fell outside the range the crate's decimals can hold
    /// exactly.
    AmountOutOfRange,
}

/// The rendered message of each error.
pub open spec fn spec_message(e: Error) -> Seq<char> {
    match e {
        Error::FeeWithoutDescription => "fee activity does not have a description"@,
        Error::UnclassifiableFee(d) => "failed to classify fee account activity with description: "@
            + d@,
        Error::UnassociatedFee(d) => "failed to associate fee with any trade: "@ + d@,
        Error::UnknownSymbol(sym) => "symbol "@ + sym@ + " not present in registry"@,
        Error::DividendWithoutSymbol => "dividend entry does not have an associated symbol"@,
        Error::AcquisitionWithoutDescription => "acquisition activity does not have a description"@,
        Error::AcquisitionUnparsable(d) =>
            "acquisition non-trade activity description could not be parsed: "@ + d@,
        Error::AcquisitionWithoutSymbol => "acquisition entry does not have an associated symbol"@,
        Error::StockSplitWithoutSymbol => "stock split entry does not have an associated symbol"@,
        Error::StockSplitWithoutPrice => "stock split entry does not have an associated price"@,
        Error::StockSplitWithoutQuantity =>
            "stock split entry does not have an associated quantity"@,
        Error::AmountOutOfRange => "amount out of exactly representable range"@,
    }
}

impl Error {
    /// The message for the caller's error stream.
    pub fn message(&self) -> (r: String)
        ensures
            r@ == spec_message(*self),
    {
        let mut out = String::new();
        match self {
            Error::FeeWithoutDescription => {
                out.append("fee activity does not have a description");
            },
            Error::UnclassifiableFee(d) => {
                out.append("failed to classify fee account activity with description: ");
                out.append(d.as_str());
            },
            Error::UnassociatedFee(d) => {
                out.append("failed to associate fee with any trade: ");
                out.append(d.as_str());
            },
            Error::UnknownSymbol(sym) => {
                out.append("symbol ");
                out.append(sym.as_str());
                out.append(" not present in registry");
            },
            Error::DividendWithoutSymbol => {
                out.append("dividend entry does not have an associated symbol");
            },
            Error::AcquisitionWithoutDescription => {
                out.append("acquisition activity does not have a description");
            },
            Error::AcquisitionUnparsable(d) => {
                out.append("acquisition non-trade activity description could not be parsed: ");
                out.append(d.as_str());
            },
            Error::AcquisitionWithoutSymbol => {
                out.append("acquisition entry does not have an associated symbol");
            },
            Error::StockSplitWithoutSymbol => {
                out.append("stock split entry does not have an associated symbol");
            },
            Error::StockSplitWithoutPrice => {
                out.append("stock split entry does not have an associated price");
            },
            Error::StockSplitWithoutQuantity => {
                out.append("stock split entry does not have an associated quantity");
            },
            Error::AmountOutOfRange => {
                out.append("amount out of exactly representable range");
            },
        }
        proof {
            assert(out@ =~= spec_message(*self));
        }
        out
    }
}

} // verus!
