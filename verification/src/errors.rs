use vstd::prelude::*;

verus! {

/// The complete failure taxonomy of the ledger.
///
/// Every operation either succeeds in full or returns one of these and leaves
/// the observable state unchanged; there is no partial progress.
#[derive(Clone, Copy, Debug, PartialEq, Eq, Structural)]
pub enum Error {
    /// A transfer asked for more than the sender's stored balance.
    InsufficientBalance,
    /// A study registration collided with an already-registered content hash.
    DuplicateStudy,
    /// A study lookup was made on an absent content hash.
    StudyNotFound,
    /// A payment batch paired contributor and amount lists of differing length.
    LengthMismatch,
    /// The external token ledger refused a transfer; the whole batch reverts.
    ExternalTransferFailed,
}

} // verus!
