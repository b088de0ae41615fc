//! The cache's laws: what chains of operations guarantee, proved once and
//! for all over the operations' contracts.

use vstd::prelude::*;

use crate::cache::{
    clear_post, current_user_spec, file_like, retrieve_post, store_post, stored_record,
    SimplifiedAuthManager, OWNER_ONLY_MODE, TOKEN_LIFETIME_SECS,
};
use crate::codec::{encode_spec, is_record_doc, lemma_encode_injective, record_of};
use crate::record::TokenData;

verus! {

/// Round trip: storing a credential and retrieving before its lifetime has
/// elapsed returns exactly the stored token pair.
pub proof fn lemma_store_then_retrieve(
    s0: SimplifiedAuthManager,
    s1: SimplifiedAuthManager,
    s2: SimplifiedAuthManager,
    token: Seq<char>,
    refresh: Seq<char>,
    user_id: Seq<char>,
    username: Seq<char>,
    perms: Seq<Seq<char>>,
    now_secs: u64,
    retrieve_secs: u64,
    r: Result<Option<(String, String)>, String>,
)
    requires
        now_secs + TOKEN_LIFETIME_SECS <= u64::MAX,
        store_post(s0, s1, token, refresh, user_id, username, perms, now_secs),
        retrieve_post(s1, s2, retrieve_secs, r),
        retrieve_secs < now_secs + TOKEN_LIFETIME_SECS,
    ensures
        match r {
            Ok(Some(p)) => p.0@ == token && p.1@ == refresh,
            _ => false,
        },
{
    let expires_at = (now_secs + TOKEN_LIFETIME_SECS) as u64;
    let f = s1.file->Some_0;
    let t = choose|t: TokenData|
        stored_record(t, token, refresh, user_id, username, perms, expires_at) && f.content@
            == encode_spec(t);
    assert(is_record_doc(f.content@));
    lemma_encode_injective(t, record_of(f.content@));
}

/// Expiry: a record retrieved at or after the end of its fixed lifetime is
/// reported absent and its backing file is deleted; a second retrieval
/// confirms that nothing is left.
pub proof fn lemma_store_then_expired_retrieve(
    s0: SimplifiedAuthManager,
    s1: SimplifiedAuthManager,
    s2: SimplifiedAuthManager,
    s3: SimplifiedAuthManager,
    token: Seq<char>,
    refresh: Seq<char>,
    user_id: Seq<char>,
    username: Seq<char>,
    perms: Seq<Seq<char>>,
    now_secs: u64,
    late_secs: u64,
    later_secs: u64,
    r2: Result<Option<(String, String)>, String>,
    r3: Result<Option<(String, String)>, String>,
)
    requires
        now_secs + TOKEN_LIFETIME_SECS <= u64::MAX,
        store_post(s0, s1, token, refresh, user_id, username, perms, now_secs),
        retrieve_post(s1, s2, late_secs, r2),
        late_secs >= now_secs + TOKEN_LIFETIME_SECS,
        retrieve_post(s2, s3, later_secs, r3),
    ensures
        r2 matches Ok(o) && o is None,
        s2.file is None,
        r3 matches Ok(o) && o is None,
        s3.file is None,
{
    let expires_at = (now_secs + TOKEN_LIFETIME_SECS) as u64;
    let f = s1.file->Some_0;
    let t = choose|t: TokenData|
        stored_record(t, token, refresh, user_id, username, perms, expires_at) && f.content@
            == encode_spec(t);
    assert(is_record_doc(f.content@));
    lemma_encode_injective(t, record_of(f.content@));
}

/// Replace semantics: storing one credential after another leaves only the
/// later one; retrieval returns the later tokens.
pub proof fn lemma_store_replaces(
    s0: SimplifiedAuthManager,
    s1: SimplifiedAuthManager,
    s2: SimplifiedAuthManager,
    s3: SimplifiedAuthManager,
    token_a: Seq<char>,
    refresh_a: Seq<char>,
    user_id_a: Seq<char>,
    username_a: Seq<char>,
    perms_a: Seq<Seq<char>>,
    first_secs: u64,
    token_b: Seq<char>,
    refresh_b: Seq<char>,
    user_id_b: Seq<char>,
    username_b: Seq<char>,
    perms_b: Seq<Seq<char>>,
    second_secs: u64,
    retrieve_secs: u64,
    r: Result<Option<(String, String)>, String>,
)
    requires
        first_secs + TOKEN_LIFETIME_SECS <= u64::MAX,
        second_secs + TOKEN_LIFETIME_SECS <= u64::MAX,
        store_post(s0, s1, token_a, refresh_a, user_id_a, username_a, perms_a, first_secs),
        store_post(s1, s2, token_b, refresh_b, user_id_b, username_b, perms_b, second_secs),
        retrieve_post(s2, s3, retrieve_secs, r),
        retrieve_secs < second_secs + TOKEN_LIFETIME_SECS,
    ensures
        match r {
            Ok(Some(p)) => p.0@ == token_b && p.1@ == refresh_b,
            _ => false,
        },
{
    lemma_store_then_retrieve(
        s1,
        s2,
        s3,
        token_b,
        refresh_b,
        user_id_b,
        username_b,
        perms_b,
        second_secs,
        retrieve_secs,
        r,
    );
}

/// Clear idempotence: clearing twice in a row, or clearing a cache that
/// never held anything, succeeds both times and leaves the cache
/// unauthenticated with no current user.
pub proof fn lemma_clear_idempotent(
    s0: SimplifiedAuthManager,
    s1: SimplifiedAuthManager,
    s2: SimplifiedAuthManager,
    r1: Result<(), String>,
    r2: Result<(), String>,
    now_secs: u64,
    current_user: Option<(String, String)>,
)
    requires
        clear_post(s0, s1, r1),
        clear_post(s1, s2, r2),
        current_user_spec(s2.state, current_user),
    ensures
        r1 is Ok,
        r2 is Ok,
        s1.state.is_empty(),
        s2.state.is_empty(),
        s2.file is None,
        !s2.spec_is_authenticated(now_secs),
        current_user is None,
{
}

/// Storing authenticates: right after a store, the cache is authenticated
/// and reports the stored subject id and display name.
pub proof fn lemma_store_authenticates(
    s0: SimplifiedAuthManager,
    s1: SimplifiedAuthManager,
    token: Seq<char>,
    refresh: Seq<char>,
    user_id: Seq<char>,
    username: Seq<char>,
    perms: Seq<Seq<char>>,
    now_secs: u64,
    current_user: Option<(String, String)>,
)
    requires
        now_secs + TOKEN_LIFETIME_SECS <= u64::MAX,
        store_post(s0, s1, token, refresh, user_id, username, perms, now_secs),
        current_user_spec(s1.state, current_user),
    ensures
        s1.spec_is_authenticated(now_secs),
        match current_user {
            Some(p) => p.0@ == user_id && p.1@ == username,
            None => false,
        },
{
}

/// Clearing deauthenticates: right after a clear, the cache is
/// unauthenticated and reports no current user.
pub proof fn lemma_clear_deauthenticates(
    s0: SimplifiedAuthManager,
    s1: SimplifiedAuthManager,
    r: Result<(), String>,
    now_secs: u64,
    current_user: Option<(String, String)>,
)
    requires
        clear_post(s0, s1, r),
        current_user_spec(s1.state, current_user),
    ensures
        r is Ok,
        !s1.spec_is_authenticated(now_secs),
        current_user is None,
{
}

/// Corruption handling: retrieval over backing-file content that is no
/// record document is an error, never a false "absent", and the content is
/// left in place.
pub proof fn lemma_corrupt_file_errors(
    s0: SimplifiedAuthManager,
    s1: SimplifiedAuthManager,
    now_secs: u64,
    r: Result<Option<(String, String)>, String>,
)
    requires
        s0.file matches Some(f) && !is_record_doc(f.content@),
        retrieve_post(s0, s1, now_secs, r),
    ensures
        r is Err,
        file_like(s1.file, s0.file),
{
}

/// Permission bits: on a platform with owner-only modes, a store leaves the
/// backing file readable and writable by the owner alone.
pub proof fn lemma_store_sets_owner_only(
    s0: SimplifiedAuthManager,
    s1: SimplifiedAuthManager,
    token: Seq<char>,
    refresh: Seq<char>,
    user_id: Seq<char>,
    username: Seq<char>,
    perms: Seq<Seq<char>>,
    now_secs: u64,
)
    requires
        now_secs + TOKEN_LIFETIME_SECS <= u64::MAX,
        store_post(s0, s1, token, refresh, user_id, username, perms, now_secs),
        s0.owner_only_supported,
    ensures
        s1.file matches Some(f) && f.mode == Some(OWNER_ONLY_MODE),
{
}

} // verus!
