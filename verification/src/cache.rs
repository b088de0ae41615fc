//! The credential cache: an in-memory summary of the current credential plus
//! the modeled backing file.
//!
//! The backing file is modeled as a slot holding the file's text and, where
//! the platform supports one, its access mode. A host keeps the slot and a
//! real file in step: after an operation it writes `backing_file()` to disk
//! (or deletes the file when the slot is empty), and before an operation it
//! may refresh the slot from disk with `set_backing_file`. Every operation
//! that consults a clock takes the current time in seconds since the epoch
//! as an argument.

use vstd::prelude::*;
use vstd::string::*;

use crate::codec::{
    decode_token_data, encode_spec, encode_token_data, is_record_doc, lemma_encode_injective,
    record_of,
};
use crate::record::{AuthState, TokenData};

verus! {

/// Seconds a stored credential stays valid: a fixed thirty-minute lifetime
/// counted from the moment of storage.
pub const TOKEN_LIFETIME_SECS: u64 = 1800;

/// The access mode a store sets on the backing file where the platform
/// supports one: read and write for the owning user, nothing for anyone else.
pub const OWNER_ONLY_MODE: u32 = 0o600;

/// The modeled backing file: its text, and the access mode this cache set on
/// it (`None` for a file this cache did not write, or where the platform has
/// no such modes).
pub struct BackingFile {
    pub content: String,
    pub mode: Option<u32>,
}

/// The credential cache. One slot: storing a credential replaces whatever
/// was there before.
pub struct SimplifiedAuthManager {
    pub state: AuthState,
    pub file: Option<BackingFile>,
    pub owner_only_supported: bool,
}

/// The two file slots hold the same text and mode.
pub open spec fn file_like(a: Option<BackingFile>, b: Option<BackingFile>) -> bool {
    match (a, b) {
        (Some(x), Some(y)) => x.content@ == y.content@ && x.mode == y.mode,
        (None, None) => true,
        _ => false,
    }
}

/// The record `t` carries exactly these tokens, identity, permission tags
/// and expiration.
pub open spec fn stored_record(
    t: TokenData,
    token: Seq<char>,
    refresh: Seq<char>,
    user_id: Seq<char>,
    username: Seq<char>,
    perms: Seq<Seq<char>>,
    expires_at: u64,
) -> bool {
    &&& t.token@ == token
    &&& t.refresh_token@ == refresh
    &&& t.user_id@ == user_id
    &&& t.username@ == username
    &&& t.permissions.deep_view() == perms
    &&& t.expires_at == expires_at
}

/// What a successful store leaves behind: the backing file holds the
/// document of the new record under the owner-only mode where supported, and
/// the in-memory state mirrors the record's identity, permissions and
/// expiration (but never its tokens).
pub open spec fn store_post(
    pre: SimplifiedAuthManager,
    post: SimplifiedAuthManager,
    token: Seq<char>,
    refresh: Seq<char>,
    user_id: Seq<char>,
    username: Seq<char>,
    perms: Seq<Seq<char>>,
    now_secs: u64,
) -> bool {
    let expires_at = (now_secs + TOKEN_LIFETIME_SECS) as u64;
    &&& post.owner_only_supported == pre.owner_only_supported
    &&& match post.file {
        Some(f) => {
            &&& exists|t: TokenData|
                stored_record(t, token, refresh, user_id, username, perms, expires_at)
                    && f.content@ == encode_spec(t)
            &&& f.content@.len() <= u64::MAX
            &&& f.mode == if pre.owner_only_supported {
                Some(OWNER_ONLY_MODE)
            } else {
                None::<u32>
            }
        },
        None => false,
    }
    &&& post.state.is_authenticated
    &&& match post.state.user_id {
        Some(u) => u@ == user_id,
        None => false,
    }
    &&& match post.state.username {
        Some(u) => u@ == username,
        None => false,
    }
    &&& post.state.permissions.deep_view() == perms
    &&& post.state.token_expires_at == Some(expires_at)
}

/// What a retrieval returns and leaves behind, depending on what the backing
/// file held: nothing (absent), a record (its tokens, unless expired, in
/// which case the file is deleted), or anything else (an error). The
/// in-memory state is never touched.
pub open spec fn retrieve_post(
    pre: SimplifiedAuthManager,
    post: SimplifiedAuthManager,
    now_secs: u64,
    r: Result<Option<(String, String)>, String>,
) -> bool {
    &&& post.state == pre.state
    &&& post.owner_only_supported == pre.owner_only_supported
    &&& match pre.file {
        None => r matches Ok(o) && o is None && post.file is None,
        Some(f) => {
            if is_record_doc(f.content@) {
                let t = record_of(f.content@);
                if t.expires_at <= now_secs {
                    &&& r matches Ok(o) && o is None
                    &&& post.file is None
                } else {
                    &&& match r {
                        Ok(Some(p)) => p.0@ == t.token@ && p.1@ == t.refresh_token@,
                        _ => false,
                    }
                    &&& file_like(post.file, pre.file)
                }
            } else {
                &&& r is Err
                &&& file_like(post.file, pre.file)
            }
        },
    }
}

/// What a clear leaves behind: no backing file, and the empty state.
pub open spec fn clear_post(
    pre: SimplifiedAuthManager,
    post: SimplifiedAuthManager,
    r: Result<(), String>,
) -> bool {
    &&& r is Ok
    &&& post.file is None
    &&& post.state.is_empty()
    &&& post.owner_only_supported == pre.owner_only_supported
}

/// What `get_current_user` returns for a given state: the subject id and
/// display name, exactly when the state is authenticated and carries them.
pub open spec fn current_user_spec(state: AuthState, r: Option<(String, String)>) -> bool {
    match r {
        Some(p) => {
            &&& state.is_authenticated
            &&& match state.user_id {
                Some(u) => p.0@ == u@,
                None => false,
            }
            &&& match state.username {
                Some(u) => p.1@ == u@,
                None => false,
            }
        },
        None => !(state.is_authenticated && state.user_id is Some && state.username is Some),
    }
}

/// Copies a vector of strings, keeping every character.
fn clone_string_vec(v: &Vec<String>) -> (r: Vec<String>)
    ensures
        r.deep_view() == v.deep_view(),
{
    let mut r: Vec<String> = Vec::new();
    let mut i: usize = 0;
    while i < v.len()
        invariant
            i <= v.len(),
            r.deep_view() == v.deep_view().take(i as int),
        decreases v.len() - i,
    {
        let ghost dv_old = r.deep_view();
        r.push(v[i].clone());
        proof {
            assert(r.deep_view() =~= dv_old.push(v@[i as int]@));
            assert(r.deep_view() =~= v.deep_view().take(i + 1));
        }
        i = i + 1;
    }
    proof {
        assert(v.deep_view().take(v@.len() as int) =~= v.deep_view());
    }
    r
}

/// Copies an optional string, keeping its characters.
fn clone_opt_string(o: &Option<String>) -> (r: Option<String>)
    ensures
        match o {
            Some(s) => r matches Some(c) && c@ == s@,
            None => r is None,
        },
{
    match o {
        Some(s) => Some(s.clone()),
        None => None,
    }
}

impl SimplifiedAuthManager {
    /// The in-memory state calls the credential expired when its recorded
    /// expiration is at or before the given time; a state without a recorded
    /// expiration counts as already expired.
    pub open spec fn spec_token_expired(self, now_secs: u64) -> bool {
        match self.state.token_expires_at {
            Some(e) => e <= now_secs,
            None => true,
        }
    }

    /// Authenticated: the flag is set and the recorded expiration is
    /// strictly in the future.
    pub open spec fn spec_is_authenticated(self, now_secs: u64) -> bool {
        self.state.is_authenticated && !self.spec_token_expired(now_secs)
    }

    /// The cache's invariant is its state's well-formedness.
    pub open spec fn wf(self) -> bool {
        self.state.wf()
    }

    /// A cache with no credential and no backing file.
    pub fn new(owner_only_supported: bool) -> (r: SimplifiedAuthManager)
        ensures
            r.wf(),
            r.state.is_empty(),
            r.file is None,
            r.owner_only_supported == owner_only_supported,
    {
        SimplifiedAuthManager {
            state: AuthState::default(),
            file: None,
            owner_only_supported,
        }
    }

    /// Builds a cache over whatever backing file already exists, seeding the
    /// in-memory state from the file's record when it holds one that has not
    /// expired. An expired record is deleted; unreadable content is left in
    /// place, with the state empty.
    pub fn initialize(
        existing_file: Option<String>,
        owner_only_supported: bool,
        now_secs: u64,
    ) -> (r: SimplifiedAuthManager)
        ensures
            r.wf(),
            r.owner_only_supported == owner_only_supported,
            match existing_file {
                None => r.state.is_empty() && r.file is None,
                Some(c) => {
                    if is_record_doc(c@) {
                        let t = record_of(c@);
                        if t.expires_at <= now_secs {
                            r.state.is_empty() && r.file is None
                        } else {
                            &&& r.state.is_authenticated
                            &&& match r.state.user_id {
                                Some(u) => u@ == t.user_id@,
                                None => false,
                            }
                            &&& match r.state.username {
                                Some(u) => u@ == t.username@,
                                None => false,
                            }
                            &&& r.state.permissions.deep_view() == t.permissions.deep_view()
                            &&& r.state.token_expires_at == Some(t.expires_at)
                            &&& r.file matches Some(f) && f.content@ == c@ && f.mode is None
                        }
                    } else {
                        r.state.is_empty() && (r.file matches Some(f) && f.content@ == c@
                            && f.mode is None)
                    }
                },
            },
    {
        let mut cache = SimplifiedAuthManager {
            state: AuthState::default(),
            file: None,
            owner_only_supported,
        };
        let content = match existing_file {
            None => {
                return cache;
            },
            Some(c) => c,
        };
        // A document held in memory is bounded; surface that for the proof.
        let _doc_len = content.as_str().unicode_len();
        match decode_token_data(&content) {
            Err(_) => {
                cache.file = Some(BackingFile { content, mode: None });
            },
            Ok(t) => {
                proof {
                    lemma_encode_injective(t, record_of(content@));
                }
                // Lazy expiry at load: a stale record's file is dropped.
                if now_secs < t.expires_at {
                    cache.state.is_authenticated = true;
                    cache.state.user_id = Some(t.user_id);
                    cache.state.username = Some(t.username);
                    cache.state.permissions = t.permissions;
                    cache.state.token_expires_at = Some(t.expires_at);
                    cache.file = Some(BackingFile { content, mode: None });
                }
            },
        }
        cache
    }

    /// Stores a credential: serializes a fresh record expiring a fixed
    /// lifetime from `now_secs` into the backing file (owner-only mode where
    /// supported), then mirrors its identity, permissions and expiration in
    /// memory. The previous credential, if any, is replaced outright. The
    /// write into the modeled file slot cannot fail, so the call always
    /// succeeds; a host that fails to write the real file reports that
    /// failure itself, before it touches this cache.
    pub fn store_auth_token(
        &mut self,
        token: &str,
        refresh_token: &str,
        user_id: &str,
        username: &str,
        permissions: Vec<String>,
        now_secs: u64,
    ) -> (r: Result<(), String>)
        requires
            old(self).wf(),
            now_secs + TOKEN_LIFETIME_SECS <= u64::MAX,
        ensures
            final(self).wf(),
            r is Ok,
            store_post(
                *old(self),
                *final(self),
                token@,
                refresh_token@,
                user_id@,
                username@,
                permissions.deep_view(),
                now_secs,
            ),
    {
        let expires_at = now_secs + TOKEN_LIFETIME_SECS;
        let state_perms = clone_string_vec(&permissions);
        let record = TokenData {
            token: token.to_owned(),
            refresh_token: refresh_token.to_owned(),
            user_id: user_id.to_owned(),
            username: username.to_owned(),
            permissions,
            expires_at,
        };
        let ghost grecord = record;
        let content = encode_token_data(&record);
        // A document held in memory is bounded; surface that for the contract.
        let _content_len = content.as_str().unicode_len();
        let mode = if self.owner_only_supported {
            Some(OWNER_ONLY_MODE)
        } else {
            None
        };
        self.file = Some(BackingFile { content, mode });
        self.state.is_authenticated = true;
        self.state.user_id = Some(record.user_id);
        self.state.username = Some(record.username);
        self.state.permissions = state_perms;
        self.state.token_expires_at = Some(expires_at);
        proof {
            assert(stored_record(
                grecord,
                token@,
                refresh_token@,
                user_id@,
                username@,
                permissions.deep_view(),
                expires_at,
            ));
        }
        Ok(())
    }

    /// Retrieves the stored token pair, reading the backing file slot fresh
    /// rather than trusting the in-memory mirror (which never holds the raw
    /// tokens). An absent file yields nothing; an expired record yields
    /// nothing and deletes the file; content that is no record document is
    /// an error. The in-memory state is left untouched either way.
    pub fn get_auth_token(&mut self, now_secs: u64) -> (r: Result<
        Option<(String, String)>,
        String,
    >)
        requires
            old(self).wf(),
        ensures
            final(self).wf(),
            retrieve_post(*old(self), *final(self), now_secs, r),
    {
        if self.file.is_none() {
            return Ok(None);
        }
        let decoded = {
            let f = self.file.as_ref().unwrap();
            // A document held in memory is bounded; surface that for the proof.
            let _doc_len = f.content.as_str().unicode_len();
            decode_token_data(&f.content)
        };
        match decoded {
            Err(e) => Err(e),
            Ok(t) => {
                proof {
                    let chars = old(self).file->Some_0.content@;
                    assert(is_record_doc(chars));
                    lemma_encode_injective(t, record_of(chars));
                }
                if t.expires_at <= now_secs {
                    // Lazy expiry: drop the stale file before reporting absence.
                    self.file = None;
                    Ok(None)
                } else {
                    Ok(Some((t.token, t.refresh_token)))
                }
            },
        }
    }

    /// Clears the credential: deletes the backing file (a missing file is
    /// not an error) and resets the in-memory state to its empty default. In
    /// this model deletion cannot fail, so the state is always reset and the
    /// call always succeeds.
    pub fn clear_auth_token(&mut self) -> (r: Result<(), String>)
        ensures
            final(self).wf(),
            clear_post(*old(self), *final(self), r),
    {
        self.file = None;
        self.state = AuthState::default();
        Ok(())
    }

    /// A copy of the current in-memory snapshot. Never consults the backing
    /// file.
    pub fn get_state(&self) -> (r: AuthState)
        ensures
            r.is_authenticated == self.state.is_authenticated,
            match self.state.user_id {
                Some(u) => r.user_id matches Some(c) && c@ == u@,
                None => r.user_id is None,
            },
            match self.state.username {
                Some(u) => r.username matches Some(c) && c@ == u@,
                None => r.username is None,
            },
            r.permissions.deep_view() == self.state.permissions.deep_view(),
            r.token_expires_at == self.state.token_expires_at,
    {
        AuthState {
            is_authenticated: self.state.is_authenticated,
            user_id: clone_opt_string(&self.state.user_id),
            username: clone_opt_string(&self.state.username),
            permissions: clone_string_vec(&self.state.permissions),
            token_expires_at: self.state.token_expires_at,
        }
    }

    /// True exactly when the in-memory state is authenticated and its
    /// recorded expiration lies strictly in the future. Consults only the
    /// in-memory state: a file changed out-of-band is not seen here.
    pub fn is_authenticated(&self, now_secs: u64) -> (r: bool)
        ensures
            r == self.spec_is_authenticated(now_secs),
    {
        self.state.is_authenticated && !self.is_token_expired(now_secs)
    }

    /// True when the in-memory state's expiration is at or before the given
    /// time; a state without a recorded expiration counts as expired.
    pub fn is_token_expired(&self, now_secs: u64) -> (r: bool)
        ensures
            r == self.spec_token_expired(now_secs),
    {
        match &self.state.token_expires_at {
            Some(e) => *e <= now_secs,
            None => true,
        }
    }

    /// The permission tags of the in-memory state.
    pub fn get_user_permissions(&self) -> (r: Vec<String>)
        ensures
            r.deep_view() == self.state.permissions.deep_view(),
    {
        clone_string_vec(&self.state.permissions)
    }

    /// The subject id and display name, when authenticated and both present.
    pub fn get_current_user(&self) -> (r: Option<(String, String)>)
        ensures
            current_user_spec(self.state, r),
    {
        if !self.state.is_authenticated {
            return None;
        }
        match (&self.state.user_id, &self.state.username) {
            (Some(u), Some(w)) => Some((u.clone(), w.clone())),
            _ => None,
        }
    }

    /// Replaces the backing file slot wholesale, as a host does after
    /// reading the real file, or as anything writing the file out-of-band
    /// would. The in-memory state is not consulted and not changed.
    pub fn set_backing_file(&mut self, content: Option<String>)
        ensures
            final(self).state == old(self).state,
            final(self).owner_only_supported == old(self).owner_only_supported,
            match content {
                None => final(self).file is None,
                Some(c) => final(self).file matches Some(f) && f.content@ == c@ && f.mode is None,
            },
    {
        self.file = match content {
            None => None,
            Some(c) => Some(BackingFile { content: c, mode: None }),
        };
    }

    /// The backing file's text, for a host to write to disk; `None` asks the
    /// host to delete the file.
    pub fn backing_file(&self) -> (r: Option<String>)
        ensures
            match self.file {
                None => r is None,
                Some(f) => r matches Some(c) && c@ == f.content@,
            },
    {
        match &self.file {
            None => None,
            Some(f) => Some(f.content.clone()),
        }
    }

    /// The access mode this cache set on the backing file, where it did.
    pub fn backing_file_mode(&self) -> (r: Option<u32>)
        ensures
            r == match self.file {
                None => None::<u32>,
                Some(f) => f.mode,
            },
    {
        match &self.file {
            None => None,
            Some(f) => f.mode,
        }
    }
}

} // verus!
