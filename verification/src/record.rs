//! The credential record that is persisted, and the in-memory summary of it.

use vstd::prelude::*;

verus! {

/// The persisted unit: tokens, identity, permission tags, and the absolute
/// expiration time in seconds since the epoch.
#[derive(Debug, Clone, PartialEq, Eq)]
pub struct TokenData {
    pub token: String,
    pub refresh_token: String,
    pub user_id: String,
    pub username: String,
    pub permissions: Vec<String>,
    pub expires_at: u64,
}

/// The in-memory, token-free summary of the credential record.
#[derive(Debug, Clone, PartialEq, Eq)]
pub struct AuthState {
    pub is_authenticated: bool,
    pub user_id: Option<String>,
    pub username: Option<String>,
    pub permissions: Vec<String>,
    pub token_expires_at: Option<u64>,
}

impl AuthState {
    /// Field-wise: this is the empty (unauthenticated) state.
    pub open spec fn is_empty(self) -> bool {
        &&& !self.is_authenticated
        &&& self.user_id is None
        &&& self.username is None
        &&& self.permissions@.len() == 0
        &&& self.token_expires_at is None
    }

    /// Subject id and display name are both present or both absent, and an
    /// unauthenticated state carries no identity, permissions or expiry.
    pub open spec fn wf(self) -> bool {
        &&& (self.user_id is Some) == (self.username is Some)
        &&& self.is_authenticated ==> {
            &&& self.user_id is Some
            &&& self.token_expires_at is Some
        }
        &&& !self.is_authenticated ==> self.is_empty()
    }
}

impl Default for AuthState {
    /// An unauthenticated state with no identity, no permissions, no expiry.
    fn default() -> (r: AuthState)
        ensures
            r.is_empty(),
            r.wf(),
    {
        AuthState {
            is_authenticated: false,
            user_id: None,
            username: None,
            permissions: Vec::new(),
            token_expires_at: None,
        }
    }
}

} // verus!
