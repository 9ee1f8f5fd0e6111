//! Secrets: a store of named secret values, in memory or behind a provider.

pub mod local;
pub mod openbao;

use vstd::prelude::*;

verus! {

/// `serde_json::Error`, carried opaquely.
#[verifier::external_type_specification]
#[verifier::external_body]
pub struct ExJsonError(serde_json::Error);

/// Why a secret operation failed.
#[derive(Debug)]
pub enum SecretError {
    /// No secret is stored under the key.
    NotFound(String),
    /// The provider refused or failed.
    ProviderError(String),
    /// The operation was not approved.
    ApprovalDenied(String),
    /// A value could not be (de)serialized.
    Serialization(serde_json::Error),
    /// The storage failed.
    DatabaseError(String),
}

/// A result of a secret operation.
pub type SecretResult<T> = Result<T, SecretError>;

} // verus!
