//! The error taxonomy of the ledger.

use vstd::prelude::*;

use crate::money::Money;

verus! {

/// Everything that can go wrong in the ledger core.
///
/// - `InvalidFormat`: an unparsable monetary literal.
/// - `RangeOverflow`: an amount, or an intermediate product, exceeds the
///   width of the persisted fixed-point integer or of the engine's
///   128-bit arithmetic.
/// - `Unbalanced`: the debit and credit reference-amount sums of a
///   submitted journal entry differ; the payload is debit minus credit.
/// - `NotFound`: a dangling account, asset or account-type reference.
/// - `InvalidData`: a structurally invalid submission (too few lines,
///   bad line numbers, a non-positive or non-persistable amount, a
///   missing or superfluous exchange rate, a reference-amount mismatch).
/// - `StorageFailure`: a store-level constraint violation, such as a
///   duplicate account number.
#[derive(Clone, Copy, Debug, PartialEq, Eq, Structural)]
pub enum Error {
    InvalidFormat,
    RangeOverflow,
    Unbalanced(Money),
    NotFound,
    InvalidData,
    StorageFailure,
}

} // verus!
