//! The pure pieces of session handling: password hashing, credential
//! checks, and the token freshness decision.
//!
//! Issuing, parsing and transporting tokens and cookies is I/O work done
//! by the caller environment; it hands the decoded claims and the clock
//! back to these functions.

use vstd::prelude::*;
use vstd::string::{StrSliceExecFns, StringSliceAdditionalSpecFns};

use base64::Engine;
use sha2::Digest;

verus! {

/// The name of the cookie that carries the session token.
pub const TOKEN_COOKIE_NAME: &'static str = "auth_token";

/// The claims carried by a session token.
pub struct Claims {
    /// The user the token names.
    pub sub: String,
    /// Expiry instant, in seconds.
    pub exp: i64,
    /// Issuance instant, in seconds.
    pub iat: i64,
}

impl Clone for Claims {
    /// An exact copy of the claims.
    fn clone(&self) -> (r: Claims)
        ensures
            r == *self,
    {
        Claims { sub: self.sub.clone(), exp: self.exp, iat: self.iat }
    }
}

/// The token-signing configuration.
pub struct JwtConfig {
    /// The signing secret.
    pub secret: Vec<u8>,
    /// How long a fresh token lives, in seconds.
    pub token_expiry: u64,
    /// How close to expiry a token is refreshed, in seconds.
    pub refresh_threshold: u64,
}

/// A registered user: the login and the salted hash of the password.
pub struct User {
    pub login: String,
    pub password_hash: String,
}

/// A login request body.
pub struct LoginRequest {
    pub login: String,
    pub password: String,
}

/// A registration request body.
pub struct RegisterRequest {
    pub login: String,
    pub password: String,
}

/// The SHA-512 digest of a byte string.
pub uninterp spec fn sha512_of(data: Seq<u8>) -> Seq<u8>;

/// The standard base64 rendering of a byte string.
pub uninterp spec fn base64_of(data: Seq<u8>) -> Seq<char>;

/// Relies on sha2::Sha512: the digest is a function of the input bytes
/// alone, and is 64 bytes long.
#[verifier::external_body]
fn sha512_digest(data: &[u8]) -> (r: Vec<u8>)
    ensures
        r@ == sha512_of(data@),
        r@.len() == 64,
{
    sha2::Sha512::digest(data).to_vec()
}

/// Relies on base64's standard engine: the rendering is a function of the
/// input bytes alone.
#[verifier::external_body]
fn base64_encode(data: &[u8]) -> (r: String)
    ensures
        r@ == base64_of(data@),
{
    base64::engine::general_purpose::STANDARD.encode(data)
}

/// What hashing a password under a salt yields: the base64 rendering of
/// the SHA-512 digest of the password bytes followed by the salt bytes.
pub open spec fn spec_password_hash(password: Seq<u8>, salt: Seq<u8>) -> Seq<char> {
    base64_of(sha512_of(password + salt))
}

/// Hash a password, salted with the user's login.
pub fn hash_password(password: &str, salt: &str) -> (r: String)
    ensures
        r@ == spec_password_hash(password.spec_bytes(), salt.spec_bytes()),
{
    let pb = password.as_bytes();
    let sb = salt.as_bytes();
    let mut data: Vec<u8> = Vec::new();
    let pn = pb.len();
    let mut i: usize = 0;
    while i < pn
        invariant
            pn == pb@.len(),
            i <= pn,
            data@ == pb@.take(i as int),
        decreases pn - i,
    {
        data.push(pb[i]);
        proof {
            assert(data@ =~= pb@.take(i + 1 as int));
        }
        i += 1;
    }
    let sn = sb.len();
    let mut j: usize = 0;
    while j < sn
        invariant
            pn == pb@.len(),
            sn == sb@.len(),
            j <= sn,
            data@ == pb@.take(pn as int) + sb@.take(j as int),
        decreases sn - j,
    {
        data.push(sb[j]);
        proof {
            assert(data@ =~= pb@.take(pn as int) + sb@.take(j + 1 as int));
        }
        j += 1;
    }
    proof {
        assert(pb@.take(pn as int) =~= pb@);
        assert(sb@.take(sn as int) =~= sb@);
        assert(data@ =~= pb@ + sb@);
    }
    let digest = sha512_digest(data.as_slice());
    base64_encode(digest.as_slice())
}

/// Whether a password, salted with the user's login, hashes to the stored
/// hash. This is the whole credential check of a login.
pub fn verify_password(user: &User, password: &str) -> (r: bool)
    ensures
        r == (user.password_hash@ == spec_password_hash(
            password.spec_bytes(),
            vstd::utf8::encode_utf8(user.login@),
        )),
{
    let login = user.login.as_str();
    proof {
        assert(login.spec_bytes() == vstd::utf8::encode_utf8(user.login@));
    }
    let hashed = hash_password(password, login);
    user.password_hash.eq(&hashed)
}

/// The freshness of a token at some instant.
#[derive(PartialEq, Eq, Structural, Debug, Clone, Copy)]
pub enum TokenStatus {
    /// The token has expired and must be rejected.
    Expired,
    /// The token is valid but close to expiry and should be reissued.
    ActiveNeedsRefresh,
    /// The token is valid.
    Active,
}

/// Decide a token's freshness at instant `now`: expired once `now` passes
/// the expiry; due for refresh while less than the threshold remains.
pub fn check_token(exp: i64, now: i64, refresh_threshold: u64) -> (r: TokenStatus)
    ensures
        r == TokenStatus::Expired <==> exp < now,
        r == TokenStatus::ActiveNeedsRefresh <==> (exp >= now && exp - now < refresh_threshold),
        r == TokenStatus::Active <==> (exp >= now && exp - now >= refresh_threshold),
{
    if exp < now {
        TokenStatus::Expired
    } else if (exp as i128) - (now as i128) < (refresh_threshold as i128) {
        TokenStatus::ActiveNeedsRefresh
    } else {
        TokenStatus::Active
    }
}

impl Claims {
    /// The claims of a reissued token: same subject, issued at `now`,
    /// expiring a full lifetime later.
    pub fn renewed(&self, now: i64, token_expiry: u64) -> (r: Claims)
        requires
            token_expiry <= i64::MAX,
            now + token_expiry <= i64::MAX,
        ensures
            r.sub@ == self.sub@,
            r.iat == now,
            r.exp == now + token_expiry,
    {
        Claims { sub: self.sub.clone(), exp: now + (token_expiry as i64), iat: now }
    }
}

} // verus!
