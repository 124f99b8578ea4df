use vstd::prelude::*;

verus! {

/// Every failure that an operation of the library can report.
#[derive(Debug, Clone, Copy, PartialEq, Eq, Structural)]
pub enum BridgeContractError {
    /// Malformed hexadecimal or decimal text, or bytes that are not UTF-8.
    InvalidEncoding,
    /// An address string whose length lies outside the accepted bounds.
    InvalidAddressFormat,
    /// A transfer larger than the sender's balance.
    InsufficientFunds,
    /// A result above 2^256 - 1.
    Overflow,
    /// A subtraction whose result would be negative.
    Underflow,
    /// An administrative call from someone other than the owner acting as origin.
    Unauthorized,
}

} // verus!
