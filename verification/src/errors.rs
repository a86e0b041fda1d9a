//! Error kinds shared by the codec, the register file and the ledger store.

use vstd::prelude::*;

verus! {

/// Every failure the state layer can report.
///
/// Encoding and register-store failures are fatal to the operation that
/// raised them; ledger-store failures leave every index untouched.
#[derive(Clone, Copy, PartialEq, Eq, Structural, Debug)]
pub enum StateError {
    /// A length or count prefix overflowed its wire-format ceiling.
    ProtocolLimitExceeded,
    /// A record was supplied where a plaintext value is required.
    ValueKindRejected,
    /// A store targeted a member register, which is not directly assignable.
    NotAssignable,
    /// No declared type exists for the locator.
    UndeclaredRegister,
    /// The value's structural shape does not match the declared type.
    TypeMismatch,
    /// A uniqueness index already holds one of the transaction's keys.
    DuplicateKey,
    /// A committed record references an ID that no index resolves.
    MissingReference,
    /// A well-formed but unsupported origin kind was supplied.
    UnsupportedOrigin,
    /// The queried transaction ID is not indexed.
    UnknownTransaction,
    /// A supplied account component is not in canonical form.
    MalformedKey,
}

} // verus!
