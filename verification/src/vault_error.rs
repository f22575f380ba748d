//! The structured failure of an operation on a vault.

use vstd::prelude::*;
use vstd::std_specs::convert::FromSpecImpl;

use crate::text::str_owned;

verus! {

/// One failure: a stable code, a message for people, the vault it concerns if
/// any, and whether trying again could help.
#[derive(Clone, Debug, PartialEq, Eq)]
pub struct VaultOperationError {
    pub code: String,
    pub message: String,
    pub vault_id: Option<u64>,
    pub retryable: bool,
}

impl VaultOperationError {
    pub fn new(code: &str, message: &str, vault_id: Option<u64>, retryable: bool) -> (r: Self)
        ensures
            r.code@ == code@,
            r.message@ == message@,
            r.vault_id == vault_id,
            r.retryable == retryable,
    {
        VaultOperationError {
            code: str_owned(code),
            message: str_owned(message),
            vault_id,
            retryable,
        }
    }
}

/// A failure to read a vault.
#[derive(Clone, Debug, PartialEq, Eq)]
pub struct VaultReadError {
    pub code: String,
    pub message: String,
    pub vault_id: Option<u64>,
    pub retryable: bool,
}

impl From<VaultReadError> for VaultOperationError {
    fn from(error: VaultReadError) -> (r: Self) {
        VaultOperationError {
            code: error.code,
            message: error.message,
            vault_id: error.vault_id,
            retryable: error.retryable,
        }
    }
}

impl FromSpecImpl<VaultReadError> for VaultOperationError {
    open spec fn obeys_from_spec() -> bool {
        true
    }

    open spec fn from_spec(error: VaultReadError) -> Self {
        VaultOperationError {
            code: error.code,
            message: error.message,
            vault_id: error.vault_id,
            retryable: error.retryable,
        }
    }
}

} // verus!
