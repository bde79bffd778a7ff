use vstd::prelude::*;

verus! {

/// Every way an operation of this contract can fail.
///
/// A failed operation has no effect: each mutating function of the library
/// promises that on an `Err` result the state is unchanged.
#[derive(Clone, Copy, Debug, PartialEq, Eq, Structural)]
pub enum ContractError {
    /// A deposit whose attached coins are all of amount zero (or absent).
    ZeroDeposit,
    /// A withdrawal request with an empty list of entries.
    EmptyWithdrawal,
    /// A withdrawal entry asks for more than the stored balance.
    InsufficientFunds,
    /// The message id of a privileged request was already consumed.
    Replay,
    /// The sender of a privileged request is not a trusted address.
    UntrustedSender,
    /// The signature set does not represent a strict majority of stake.
    QuorumNotMet,
    /// The signature-verification primitive rejected a signature's encoding.
    MalformedSignature,
    /// A stake or balance sum would not fit in an unsigned 128-bit integer.
    ArithmeticOverflow,
}

} // verus!
