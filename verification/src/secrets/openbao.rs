//! Secrets behind an OpenBao server. The provider is not wired up: every
//! operation answers with a provider error.

use vstd::prelude::*;

use crate::secrets::{SecretError, SecretResult};

verus! {

/// The message every operation answers with.
pub open spec fn not_implemented_message() -> Seq<char> {
    "OpenBao provider not yet fully implemented"@
}

/// Where the OpenBao server is and the token to reach it with.
pub struct OpenBaoSecretStore {
    address: String,
    token: String,
}

fn not_implemented() -> (e: SecretError)
    ensures
        e matches SecretError::ProviderError(m) && m@ == not_implemented_message(),
{
    SecretError::ProviderError("OpenBao provider not yet fully implemented".to_owned())
}

impl OpenBaoSecretStore {
    pub closed spec fn address_spec(&self) -> Seq<char> {
        self.address@
    }

    pub closed spec fn token_spec(&self) -> Seq<char> {
        self.token@
    }

    /// A store for the server at `address`, reached with `token`.
    pub fn new(address: &str, token: &str) -> (s: OpenBaoSecretStore)
        ensures
            s.address_spec() == address@,
            s.token_spec() == token@,
    {
        OpenBaoSecretStore { address: address.to_owned(), token: token.to_owned() }
    }

    /// Answers with the provider error.
    pub fn get(&self, key: &str) -> (r: SecretResult<String>)
        ensures
            r matches Err(SecretError::ProviderError(m)) && m@ == not_implemented_message(),
    {
        Err(not_implemented())
    }

    /// Answers with the provider error.
    pub fn set(&self, key: &str, value: &str) -> (r: SecretResult<()>)
        ensures
            r matches Err(SecretError::ProviderError(m)) && m@ == not_implemented_message(),
    {
        Err(not_implemented())
    }

    /// Answers with the provider error.
    pub fn delete(&self, key: &str) -> (r: SecretResult<()>)
        ensures
            r matches Err(SecretError::ProviderError(m)) && m@ == not_implemented_message(),
    {
        Err(not_implemented())
    }
}

} // verus!
