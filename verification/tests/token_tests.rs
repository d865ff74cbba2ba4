use chat_gateway::token::{check_login, decode_jwt, encode_jwt, token_round_trip, TOKEN_TTL_SECONDS};
use chat_gateway::Error;
use chrono::Utc;
use uuid::Uuid;

fn now_ts() -> u64 {
    Utc::now().timestamp() as u64
}

#[test]
fn encode_decode_roundtrip() {
    let secret = b"test-secret-for-ci";
    let id = Uuid::new_v4();
    let now = now_ts();
    let token = encode_jwt(id.as_u128(), secret, now).expect("encode should succeed");
    let decoded = decode_jwt(&token, secret, now).expect("decode should succeed");
    assert_eq!(id.as_u128(), decoded);
}

#[test]
fn round_trip_helper_returns_identity() {
    let secret = b"test-secret-for-ci";
    let id = Uuid::new_v4().as_u128();
    let issued: u64 = 1_700_000_000;
    let checked = issued + TOKEN_TTL_SECONDS - 1;
    let got = token_round_trip(id, secret, issued, checked).expect("round trip should succeed");
    assert_eq!(id, got);
}

#[test]
fn expired_token_is_rejected() {
    let secret = b"test-secret-for-ci";
    let id = Uuid::new_v4().as_u128();
    let issued: u64 = 1_700_000_000;
    let token = encode_jwt(id, secret, issued).expect("encode should succeed");
    let at_expiry = issued + TOKEN_TTL_SECONDS;
    let err = decode_jwt(&token, secret, at_expiry).err().expect("should be expired");
    assert!(matches!(err, Error::DecodeJwtFailed(_)));
    let later = issued + TOKEN_TTL_SECONDS + 3600;
    assert!(decode_jwt(&token, secret, later).is_err());
}

#[test]
fn tampered_token_is_rejected() {
    let secret = b"test-secret-for-ci";
    let id = Uuid::new_v4().as_u128();
    let now = now_ts();
    let token = encode_jwt(id, secret, now).expect("encode should succeed");
    let mut chars: Vec<char> = token.chars().collect();
    let last = chars.len() - 1;
    chars[last] = if chars[last] == 'A' { 'B' } else { 'A' };
    let forged: String = chars.into_iter().collect();
    assert!(matches!(decode_jwt(&forged, secret, now), Err(Error::DecodeJwtFailed(_))));
}

#[test]
fn wrong_secret_is_rejected() {
    let id = Uuid::new_v4().as_u128();
    let now = now_ts();
    let token = encode_jwt(id, b"secret-one", now).expect("encode should succeed");
    assert!(matches!(decode_jwt(&token, b"secret-two", now), Err(Error::DecodeJwtFailed(_))));
}

#[test]
fn check_login_missing_header() {
    let err = check_login(None, b"test-secret-for-ci", now_ts()).err().expect("should error");
    assert!(matches!(err, Error::TokenNotFound));
}

#[test]
fn check_login_strips_bearer_prefix() {
    let secret = b"test-secret-for-ci";
    let id = Uuid::new_v4().as_u128();
    let now = now_ts();
    let token = encode_jwt(id, secret, now).expect("encode should succeed");
    let header = format!("Bearer {token}");
    let got = check_login(Some(&header), secret, now).expect("handshake should pass");
    assert_eq!(id, got);
}

#[test]
fn check_login_accepts_raw_token() {
    let secret = b"test-secret-for-ci";
    let id = Uuid::new_v4().as_u128();
    let now = now_ts();
    let token = encode_jwt(id, secret, now).expect("encode should succeed");
    let got = check_login(Some(&token), secret, now).expect("handshake should pass");
    assert_eq!(id, got);
}

#[test]
fn check_login_prefix_is_case_sensitive() {
    let secret = b"test-secret-for-ci";
    let id = Uuid::new_v4().as_u128();
    let now = now_ts();
    let token = encode_jwt(id, secret, now).expect("encode should succeed");
    let header = format!("bearer {token}");
    assert!(matches!(
        check_login(Some(&header), secret, now),
        Err(Error::DecodeJwtFailed(_))
    ));
}

#[test]
fn error_status_codes() {
    assert_eq!(Error::TokenNotFound.status_code(), 401);
    assert_eq!(Error::DecodeJwtFailed(String::from("x")).status_code(), 401);
    assert_eq!(Error::RecordNotFound.status_code(), 404);
    assert_eq!(Error::QueryFailed(String::from("x")).status_code(), 500);
    assert_eq!(Error::InsertFailed(String::from("x")).status_code(), 500);
    assert_eq!(Error::UpdateFailed(String::from("x")).status_code(), 500);
    assert_eq!(Error::DeleteFailed(String::from("x")).status_code(), 500);
    assert_eq!(Error::Unknown(String::from("x")).status_code(), 500);
    assert_eq!(Error::DatabaseConnectionFailed.status_code(), 503);
    assert_eq!(Error::EnvVarNotFound(String::from("JWT_SECRET")).status_code(), 500);
    assert_eq!(Error::CreateFileFailed.status_code(), 500);
    assert_eq!(Error::FileTypeInvalid.status_code(), 500);
}
