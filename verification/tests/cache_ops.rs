use credential_cache::cache::SimplifiedAuthManager;

const NOW: u64 = 1_700_000_000;
const LIFETIME: u64 = 1800;

fn perms(tags: &[&str]) -> Vec<String> {
    tags.iter().map(|t| t.to_string()).collect()
}

#[test]
fn scenario_store_retrieve_clear() {
    let mut m = SimplifiedAuthManager::new(true);
    m.store_auth_token("tok1", "ref1", "u1", "alice", perms(&["read", "write"]), NOW)
        .unwrap();
    assert_eq!(
        m.get_auth_token(NOW).unwrap(),
        Some(("tok1".to_string(), "ref1".to_string()))
    );
    assert_eq!(m.get_user_permissions(), perms(&["read", "write"]));
    assert!(m.is_authenticated(NOW));
    m.clear_auth_token().unwrap();
    assert_eq!(m.get_auth_token(NOW).unwrap(), None);
    assert!(!m.is_authenticated(NOW));
}

#[test]
fn round_trip_immediate() {
    let mut m = SimplifiedAuthManager::new(false);
    m.store_auth_token("access", "refresh", "user", "name", perms(&[]), NOW)
        .unwrap();
    assert_eq!(
        m.get_auth_token(NOW + 1).unwrap(),
        Some(("access".to_string(), "refresh".to_string()))
    );
}

#[test]
fn round_trip_through_file_text() {
    let mut m = SimplifiedAuthManager::new(true);
    m.store_auth_token("a:b\nc", "r\\q", "u:1", "al\nice", perms(&["re:ad", ""]), NOW)
        .unwrap();
    // Pull the file text out and push it back in, as a host reloading from
    // disk would; the awkward characters must survive unchanged.
    let text = m.backing_file().unwrap();
    m.set_backing_file(Some(text));
    assert_eq!(
        m.get_auth_token(NOW).unwrap(),
        Some(("a:b\nc".to_string(), "r\\q".to_string()))
    );
}

#[test]
fn expiry_returns_absent_and_deletes_file() {
    let mut m = SimplifiedAuthManager::new(true);
    m.store_auth_token("tok", "ref", "u", "n", perms(&["p"]), NOW).unwrap();
    assert!(m.backing_file().is_some());
    assert_eq!(m.get_auth_token(NOW + LIFETIME).unwrap(), None);
    assert!(m.backing_file().is_none());
    // A second retrieval still reports absence.
    assert_eq!(m.get_auth_token(NOW + LIFETIME + 1).unwrap(), None);
}

#[test]
fn expiry_boundary_is_at_or_before() {
    let mut m = SimplifiedAuthManager::new(true);
    m.store_auth_token("tok", "ref", "u", "n", perms(&[]), NOW).unwrap();
    assert_eq!(
        m.get_auth_token(NOW + LIFETIME - 1).unwrap(),
        Some(("tok".to_string(), "ref".to_string()))
    );
    assert!(m.is_authenticated(NOW + LIFETIME - 1));
    assert!(!m.is_authenticated(NOW + LIFETIME));
    assert_eq!(m.get_auth_token(NOW + LIFETIME).unwrap(), None);
}

#[test]
fn store_replaces_previous_credential() {
    let mut m = SimplifiedAuthManager::new(true);
    m.store_auth_token("tokA", "refA", "uA", "nA", perms(&["a"]), NOW).unwrap();
    m.store_auth_token("tokB", "refB", "uB", "nB", perms(&["b"]), NOW + 5)
        .unwrap();
    assert_eq!(
        m.get_auth_token(NOW + 6).unwrap(),
        Some(("tokB".to_string(), "refB".to_string()))
    );
    assert_eq!(m.get_user_permissions(), perms(&["b"]));
    assert_eq!(
        m.get_current_user(),
        Some(("uB".to_string(), "nB".to_string()))
    );
}

#[test]
fn clear_is_idempotent() {
    let mut m = SimplifiedAuthManager::new(true);
    // Clearing a cache that never held anything succeeds.
    m.clear_auth_token().unwrap();
    m.clear_auth_token().unwrap();
    assert!(!m.is_authenticated(NOW));
    assert_eq!(m.get_current_user(), None);
    // And clearing twice after a store behaves the same.
    m.store_auth_token("t", "r", "u", "n", perms(&["p"]), NOW).unwrap();
    m.clear_auth_token().unwrap();
    m.clear_auth_token().unwrap();
    assert!(!m.is_authenticated(NOW));
    assert_eq!(m.get_current_user(), None);
    assert!(m.get_user_permissions().is_empty());
    assert!(m.backing_file().is_none());
}

#[test]
fn store_authenticates_and_clear_deauthenticates() {
    let mut m = SimplifiedAuthManager::new(true);
    m.store_auth_token("t", "r", "u1", "alice", perms(&["read"]), NOW).unwrap();
    assert!(m.is_authenticated(NOW));
    assert_eq!(
        m.get_current_user(),
        Some(("u1".to_string(), "alice".to_string()))
    );
    m.clear_auth_token().unwrap();
    assert!(!m.is_authenticated(NOW));
    assert_eq!(m.get_current_user(), None);
}

#[test]
fn corrupt_file_is_an_error_not_absent() {
    let mut m = SimplifiedAuthManager::new(true);
    m.store_auth_token("t", "r", "u", "n", perms(&[]), NOW).unwrap();
    m.set_backing_file(Some("this is not a credential record".to_string()));
    assert!(m.get_auth_token(NOW).is_err());
    // Truncated real content is also rejected.
    m.store_auth_token("t", "r", "u", "n", perms(&[]), NOW).unwrap();
    let text = m.backing_file().unwrap();
    let truncated: String = text.chars().take(text.chars().count() - 1).collect();
    m.set_backing_file(Some(truncated));
    assert!(m.get_auth_token(NOW).is_err());
    // Trailing garbage after a full document is rejected too.
    m.store_auth_token("t", "r", "u", "n", perms(&[]), NOW).unwrap();
    let mut padded = m.backing_file().unwrap();
    padded.push(' ');
    m.set_backing_file(Some(padded));
    assert!(m.get_auth_token(NOW).is_err());
}

#[test]
fn store_sets_owner_only_mode_where_supported() {
    let mut m = SimplifiedAuthManager::new(true);
    m.store_auth_token("t", "r", "u", "n", perms(&[]), NOW).unwrap();
    assert_eq!(m.backing_file_mode(), Some(0o600));

    let mut m2 = SimplifiedAuthManager::new(false);
    m2.store_auth_token("t", "r", "u", "n", perms(&[]), NOW).unwrap();
    assert_eq!(m2.backing_file_mode(), None);
}

#[test]
fn initialize_without_file_is_empty() {
    let m = SimplifiedAuthManager::initialize(None, true, NOW);
    assert!(!m.is_authenticated(NOW));
    assert_eq!(m.get_current_user(), None);
    assert!(m.backing_file().is_none());
}

#[test]
fn initialize_seeds_state_from_live_record() {
    let mut writer = SimplifiedAuthManager::new(true);
    writer
        .store_auth_token("tok", "ref", "u7", "river", perms(&["admin"]), NOW)
        .unwrap();
    let text = writer.backing_file().unwrap();

    let mut m = SimplifiedAuthManager::initialize(Some(text), true, NOW + 10);
    assert!(m.is_authenticated(NOW + 10));
    assert_eq!(
        m.get_current_user(),
        Some(("u7".to_string(), "river".to_string()))
    );
    assert_eq!(m.get_user_permissions(), perms(&["admin"]));
    // The record itself is still retrievable from the kept file.
    assert_eq!(
        m.get_auth_token(NOW + 10).unwrap(),
        Some(("tok".to_string(), "ref".to_string()))
    );
}

#[test]
fn initialize_drops_expired_record() {
    let mut writer = SimplifiedAuthManager::new(true);
    writer
        .store_auth_token("tok", "ref", "u", "n", perms(&[]), NOW)
        .unwrap();
    let text = writer.backing_file().unwrap();

    let m = SimplifiedAuthManager::initialize(Some(text), true, NOW + LIFETIME);
    assert!(!m.is_authenticated(NOW + LIFETIME));
    assert_eq!(m.get_current_user(), None);
    assert!(m.backing_file().is_none());
}

#[test]
fn initialize_keeps_unreadable_content_with_empty_state() {
    let m = SimplifiedAuthManager::initialize(Some("garbage".to_string()), true, NOW);
    assert!(!m.is_authenticated(NOW));
    assert_eq!(m.get_current_user(), None);
    assert_eq!(m.backing_file(), Some("garbage".to_string()));
}

#[test]
fn missing_expiration_counts_as_expired() {
    let m = SimplifiedAuthManager::new(true);
    assert!(m.is_token_expired(0));
    assert!(!m.is_authenticated(0));
}

#[test]
fn get_state_is_a_snapshot() {
    let mut m = SimplifiedAuthManager::new(true);
    m.store_auth_token("t", "r", "u1", "alice", perms(&["read"]), NOW).unwrap();
    let s = m.get_state();
    assert!(s.is_authenticated);
    assert_eq!(s.user_id, Some("u1".to_string()));
    assert_eq!(s.username, Some("alice".to_string()));
    assert_eq!(s.permissions, perms(&["read"]));
    assert_eq!(s.token_expires_at, Some(NOW + LIFETIME));
    // The snapshot never carries the raw tokens.
    m.clear_auth_token().unwrap();
    let s2 = m.get_state();
    assert!(!s2.is_authenticated);
    assert_eq!(s2.user_id, None);
    assert_eq!(s2.username, None);
    assert!(s2.permissions.is_empty());
    assert_eq!(s2.token_expires_at, None);
}
