use vstd::prelude::*;
use jsonwebtoken::{decode, encode, DecodingKey, EncodingKey, Header, Validation};
use serde_json::Value;
use uuid::Uuid;
use crate::errors::Error;

verus! {

/// Seconds a freshly issued credential stays valid.
pub const TOKEN_TTL_SECONDS: u64 = 86400;

/// The subject label every login credential carries.
pub open spec fn login_sub() -> Seq<char> {
    "Login Token"@
}

/// The claims a credential carries: a subject label, the expiry instant
/// (seconds since the epoch), and the identity it was issued for.
#[derive(Debug, Clone)]
pub struct Claims {
    pub sub: String,
    pub exp: u64,
    pub user_id: u128,
}

/// The signed compact form that `jsonwebtoken::encode` produces, with the
/// default header, for these claims under this secret. The token is a
/// deterministic function of the claims and the secret, and the claims are
/// embedded in it, so two distinct claim triples never share a token.
pub uninterp spec fn token_of(sub: Seq<char>, exp: u64, user_id: u128, secret: Seq<u8>) -> Seq<char>;

/// `token` is a credential for `uid` under `secret` that is still live at
/// instant `now`: some signed encoding with a horizon after `now` matches it.
pub open spec fn valid_token_for(token: Seq<char>, uid: u128, secret: Seq<u8>, now: u64) -> bool {
    exists|sub: Seq<char>, exp: u64| token == #[trigger] token_of(sub, exp, uid, secret) && now < exp
}

/// Relies on `jsonwebtoken::encode` (HS256, default header): signing with an
/// HMAC secret always succeeds — the key family matches the default header's
/// algorithm, `Hmac` accepts a key of any length, and serializing a JSON
/// value cannot fail — and the returned compact token is the signed encoding
/// of exactly these claims under `secret`.
#[verifier::external_body]
fn jwt_sign(claims: &Claims, secret: &[u8]) -> (r: Result<String, String>)
    ensures
        r is Ok,
        r matches Ok(t) ==> t@ == token_of(claims.sub@, claims.exp, claims.user_id, secret@),
{
    let mut payload = serde_json::Map::new();
    payload.insert("sub".to_string(), Value::from(claims.sub.clone()));
    payload.insert("exp".to_string(), Value::from(claims.exp));
    payload.insert("user_id".to_string(), Value::from(Uuid::from_u128(claims.user_id).to_string()));
    encode(&Header::default(), &Value::Object(payload), &EncodingKey::from_secret(secret))
        .map_err(|e| e.to_string())
}

/// Relies on `jsonwebtoken::decode` (HS256, signature checked, expiry left to
/// the caller): it accepts every token `jsonwebtoken::encode` produced under
/// the same secret and returns the claims embedded in it. The converse rests
/// on the usual idealization of the HMAC scheme: nothing outside this signer
/// holds the secret, so a token that verifies is one the signer produced.
#[verifier::external_body]
fn jwt_verify(token: &String, secret: &[u8]) -> (r: Result<Claims, String>)
    ensures
        r matches Ok(c) ==> token@ == token_of(c.sub@, c.exp, c.user_id, secret@),
        r matches Ok(c) ==> forall|sub: Seq<char>, exp: u64, uid: u128|
            token@ == #[trigger] token_of(sub, exp, uid, secret@)
                ==> c.sub@ == sub && c.exp == exp && c.user_id == uid,
        r is Err ==> forall|sub: Seq<char>, exp: u64, uid: u128|
            token@ != #[trigger] token_of(sub, exp, uid, secret@),
{
    let mut validation = Validation::default();
    validation.validate_exp = false;
    let key = DecodingKey::from_secret(secret);
    let data = decode::<Value>(token, &key, &validation).map_err(|e| e.to_string())?;
    let sub = data.claims.get("sub").and_then(Value::as_str);
    let exp = data.claims.get("exp").and_then(Value::as_u64);
    let uid = data.claims.get("user_id").and_then(Value::as_str).and_then(|s| Uuid::parse_str(s).ok());
    match (sub, exp, uid) {
        (Some(s), Some(e), Some(u)) => Ok(Claims { sub: s.to_string(), exp: e, user_id: u.as_u128() }),
        _ => Err("missing claim".to_string()),
    }
}

/// Issue a credential for `user_id`, valid for `TOKEN_TTL_SECONDS` from
/// `now`. Issuance always succeeds: the token carries exactly the subject
/// label, the one-day horizon, and the identity.
pub fn encode_jwt(user_id: u128, secret: &[u8], now: u64) -> (r: Result<String, Error>)
    requires
        now + TOKEN_TTL_SECONDS <= u64::MAX,
    ensures
        r matches Ok(t) && t@ == token_of(login_sub(), (now + TOKEN_TTL_SECONDS) as u64, user_id, secret@),
{
    let exp: u64 = now + TOKEN_TTL_SECONDS;
    let claims = Claims { sub: "Login Token".to_owned(), exp, user_id };
    match jwt_sign(&claims, secret) {
        Ok(t) => Ok(t),
        Err(m) => Err(Error::Unknown(m)),
    }
}

/// Validate a credential at instant `now`: the signature must be `secret`'s
/// and the expiry must lie strictly after `now`; on success the embedded
/// identity comes back. Pure in (token, secret, clock); no side effects.
pub fn decode_jwt(token: &String, secret: &[u8], now: u64) -> (r: Result<u128, Error>)
    ensures
        forall|sub: Seq<char>, exp: u64, uid: u128|
            (token@ == #[trigger] token_of(sub, exp, uid, secret@) && now < exp)
                ==> (r matches Ok(u) && u == uid),
        r matches Ok(u) ==> valid_token_for(token@, u, secret@, now),
        r matches Err(e) ==> e is DecodeJwtFailed,
{
    match jwt_verify(token, secret) {
        Ok(claims) => {
            if now < claims.exp {
                proof {
                    assert(valid_token_for(token@, claims.user_id, secret@, now)) by {
                        assert(token@ == token_of(claims.sub@, claims.exp, claims.user_id, secret@)
                            && now < claims.exp);
                    }
                }
                Ok(claims.user_id)
            } else {
                Err(Error::DecodeJwtFailed("ExpiredSignature".to_owned()))
            }
        },
        Err(m) => Err(Error::DecodeJwtFailed(m)),
    }
}

/// What remains of an authorization header once an exact `"Bearer "` prefix,
/// if present, is taken off; without the prefix the value stands as it is.
pub open spec fn strip_bearer_spec(s: Seq<char>) -> Seq<char> {
    if s.len() >= 7 && s.subrange(0, 7) == "Bearer "@ {
        s.subrange(7, s.len() as int)
    } else {
        s
    }
}

fn strip_bearer(h: &str) -> (t: String)
    ensures
        t@ == strip_bearer_spec(h@),
{
    let n = h.unicode_len();
    if n >= 7 && h.get_char(0) == 'B' && h.get_char(1) == 'e' && h.get_char(2) == 'a'
        && h.get_char(3) == 'r' && h.get_char(4) == 'e' && h.get_char(5) == 'r'
        && h.get_char(6) == ' ' {
        proof {
            reveal_strlit("Bearer ");
            assert(h@.subrange(0, 7) =~= "Bearer "@);
        }
        let t = h.substring_char(7, n);
        t.to_owned()
    } else {
        proof {
            reveal_strlit("Bearer ");
            if h@.len() >= 7 && h@.subrange(0, 7) == "Bearer "@ {
                assert(h@[0] == 'B' && h@[1] == 'e' && h@[2] == 'a' && h@[3] == 'r'
                    && h@[4] == 'e' && h@[5] == 'r' && h@[6] == ' ') by {
                    assert(forall|i: int| 0 <= i < 7 ==> h@.subrange(0, 7)[i] == h@[i]);
                }
            }
        }
        h.to_owned()
    }
}

/// The connection-handshake gate over the raw authorization header: absence
/// is refused outright, an exact `"Bearer "` prefix is stripped, and the
/// remaining credential is validated against `secret` at instant `now`.
pub fn check_login(header: Option<&String>, secret: &[u8], now: u64) -> (r: Result<u128, Error>)
    ensures
        header is None ==> (r matches Err(e) && e is TokenNotFound),
        forall|sub: Seq<char>, exp: u64, uid: u128|
            (header matches Some(h)
                && strip_bearer_spec(h@) == #[trigger] token_of(sub, exp, uid, secret@)
                && now < exp)
                ==> (r matches Ok(u) && u == uid),
        header matches Some(h) ==> (r matches Ok(u) ==>
            valid_token_for(strip_bearer_spec(h@), u, secret@, now)),
        header matches Some(h) ==> (r matches Err(e) ==> e is DecodeJwtFailed),
{
    match header {
        None => Err(Error::TokenNotFound),
        Some(h) => {
            let token = strip_bearer(h.as_str());
            decode_jwt(&token, secret, now)
        },
    }
}

/// Round trip of the credential codec: a token issued for `user_id` at
/// instant `issued` yields exactly `user_id` when validated at any instant
/// `checked` before the token's horizon.
pub fn token_round_trip(user_id: u128, secret: &[u8], issued: u64, checked: u64) -> (r: Result<u128, Error>)
    requires
        issued + TOKEN_TTL_SECONDS <= u64::MAX,
        checked < issued + TOKEN_TTL_SECONDS,
    ensures
        r matches Ok(u) && u == user_id,
{
    match encode_jwt(user_id, secret, issued) {
        Ok(token) => decode_jwt(&token, secret, checked),
        Err(e) => Err(e),
    }
}

} // verus!
