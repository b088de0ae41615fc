use credential_cache::codec::{decode_token_data, encode_token_data};
use credential_cache::record::TokenData;

fn sample() -> TokenData {
    TokenData {
        token: "ab".to_string(),
        refresh_token: "r".to_string(),
        user_id: "u".to_string(),
        username: "n".to_string(),
        permissions: vec!["x".to_string()],
        expires_at: 42,
    }
}

#[test]
fn encode_produces_the_exact_document() {
    let doc = encode_token_data(&sample());
    let expected = "token:00000000000000000002:ab\n\
refresh_token:00000000000000000001:r\n\
user_id:00000000000000000001:u\n\
username:00000000000000000001:n\n\
permissions:00000000000000000001\n\
p:00000000000000000001:x\n\
expires_at:00000000000000000042\n";
    assert_eq!(doc, expected);
}

#[test]
fn decode_inverts_encode() {
    let t = sample();
    let doc = encode_token_data(&t);
    assert_eq!(decode_token_data(&doc).unwrap(), t);
}

#[test]
fn decode_inverts_encode_on_awkward_values() {
    let t = TokenData {
        token: "line\nbreak:and:colons".to_string(),
        refresh_token: String::new(),
        user_id: "ünïcode \u{1F512}".to_string(),
        username: "trailing\n".to_string(),
        permissions: vec![String::new(), "a\nb".to_string(), ":".to_string()],
        expires_at: u64::MAX,
    };
    let doc = encode_token_data(&t);
    assert_eq!(decode_token_data(&doc).unwrap(), t);
}

#[test]
fn decode_rejects_malformed_documents() {
    assert!(decode_token_data(&String::new()).is_err());
    assert!(decode_token_data(&"token".to_string()).is_err());
    assert!(decode_token_data(&"token:x0000000000000000002:ab\n".to_string()).is_err());
    let doc = encode_token_data(&sample());
    // Any single change breaks the document: a flipped digit makes a length
    // disagree with the value that follows.
    let flipped = doc.replacen("00000000000000000002", "00000000000000000003", 1);
    assert!(decode_token_data(&flipped).is_err());
    // A wrong permission count is caught too.
    let miscounted = doc.replacen("permissions:00000000000000000001", "permissions:00000000000000000002", 1);
    assert!(decode_token_data(&miscounted).is_err());
}

#[test]
fn decode_rejects_reordered_fields() {
    let doc = "refresh_token:00000000000000000001:r\n\
token:00000000000000000002:ab\n\
user_id:00000000000000000001:u\n\
username:00000000000000000001:n\n\
permissions:00000000000000000000\n\
expires_at:00000000000000000042\n";
    assert!(decode_token_data(&doc.to_string()).is_err());
}

#[test]
fn decode_accepts_empty_permission_list() {
    let t = TokenData {
        token: "t".to_string(),
        refresh_token: "r".to_string(),
        user_id: "u".to_string(),
        username: "n".to_string(),
        permissions: Vec::new(),
        expires_at: 0,
    };
    let doc = encode_token_data(&t);
    assert_eq!(decode_token_data(&doc).unwrap(), t);
}
