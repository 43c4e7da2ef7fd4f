use vstd::prelude::*;

verus! {

/// The closed set of failures a ledger or codec operation can raise.
///
/// Every operation returns a typed result; none panics on caller-supplied
/// data. A failing operation never leaves a partial mutation behind.
#[derive(Clone, Copy, Debug, PartialEq, Eq, Structural)]
pub enum LedgerError {
    /// A withdrawal or balance query named a key with no ledger entry.
    UninitializedAccount,
    /// A withdrawal asked for more than the key's current balance.
    InsufficientFunds,
    /// A removal named a key with no ledger entry.
    KeyNotFound,
    /// A deposit would push a balance past the 64-bit ceiling.
    Overflow,
    /// A buffer was truncated, malformed, or too small for the ledger.
    InvalidData,
}

} // verus!
