use vstd::prelude::*;

verus! {

/// Everything that can go wrong in the router core.
///
/// Every operation surfaces the first violated precondition and performs no
/// compensating action; no error here is ever retried internally.
#[derive(Clone, Copy, Debug, PartialEq, Eq, Structural)]
pub enum ErrorCode {
    /// The caller of a mutating or destructive operation is not the stored owner.
    Unauthorized,
    /// No configuration is stored for the given owner.
    NotFound,
    /// A configuration for this owner already exists.
    AlreadyExists,
    /// The candidate destination table has no entries.
    Empty,
    /// The percentages of the candidate destination table do not sum to 10000.
    BadTotal,
    /// The candidate destination table has more entries than the storage
    /// reserved at creation time can hold.
    CapacityExceeded,
    /// Fewer destination handles were supplied than the stored table needs.
    InsufficientDestinationAccounts,
    /// A supplied destination handle differs from the stored address at the
    /// same position.
    DestinationMismatch,
    /// The external transfer primitive reported a failure; the hosting
    /// environment discards any transfers already issued in the same call.
    TransferFailed,
}

} // verus!
