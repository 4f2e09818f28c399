//! Authentication data model and decisions: registration validation, the
//! login decision chain around bcrypt, JWT claims construction and token
//! header handling. Token encoding and decoding themselves are serde-bound
//! and live with the embedding application.

use crate::text::{contains_char, is_blank, is_blank_exec, int_str};
use crate::user::User;
use vstd::prelude::*;
use vstd::string::StringSliceAdditionalSpecFns;
use vstd::utf8::encode_utf8;

verus! {

/// A login attempt.
#[derive(Debug)]
pub struct LoginRequest {
    pub email: String,
    pub password: String,
}

/// A registration attempt.
#[derive(Debug)]
pub struct RegisterRequest {
    pub name: String,
    pub email: String,
    pub password: String,
}

/// A successful authentication: the token, the public user, and the token's
/// expiry instant in seconds since the Unix epoch.
#[derive(Debug)]
pub struct AuthResponse {
    pub token: String,
    pub user: crate::user::PublicUser,
    pub expires_at: i64,
}

/// The JWT claims: subject (the user id in decimal), identity fields, and
/// expiry/issue instants in seconds since the Unix epoch.
#[derive(Debug, Clone)]
pub struct Claims {
    pub sub: String,
    pub email: String,
    pub name: String,
    pub is_admin: bool,
    pub exp: usize,
    pub iat: usize,
}

/// An authentication failure: a stable error code and a human-readable
/// message.
#[derive(Debug)]
pub struct AuthError {
    pub error: String,
    pub message: String,
}

/// The JWT configuration: signing secret and token lifetime in hours. Read
/// from the environment by the embedding application.
#[derive(Debug)]
pub struct JwtConfig {
    pub secret: String,
    pub expiration_hours: i64,
}

impl AuthError {
    /// An error with the given code and message.
    pub fn new(error: &str, message: &str) -> (r: Self)
        ensures
            r.error@ == error@,
            r.message@ == message@,
    {
        AuthError { error: error.to_owned(), message: message.to_owned() }
    }

    /// The email or the password did not match.
    pub fn invalid_credentials() -> (r: Self)
        ensures
            r.error@ == "invalid_credentials"@,
            r.message@ == "Email o contraseña incorrectos"@,
    {
        Self::new("invalid_credentials", "Email o contraseña incorrectos")
    }

    /// No such user.
    pub fn user_not_found() -> (r: Self)
        ensures
            r.error@ == "user_not_found"@,
            r.message@ == "Usuario no encontrado"@,
    {
        Self::new("user_not_found", "Usuario no encontrado")
    }

    /// The email is already registered.
    pub fn email_exists() -> (r: Self)
        ensures
            r.error@ == "email_exists"@,
            r.message@ == "Este email ya está registrado"@,
    {
        Self::new("email_exists", "Este email ya está registrado")
    }

    /// The token is invalid or expired.
    pub fn invalid_token() -> (r: Self)
        ensures
            r.error@ == "invalid_token"@,
            r.message@ == "Token inválido o expirado"@,
    {
        Self::new("invalid_token", "Token inválido o expirado")
    }

    /// No valid authentication was presented.
    pub fn unauthorized() -> (r: Self)
        ensures
            r.error@ == "unauthorized"@,
            r.message@ == "No autorizado"@,
    {
        Self::new("unauthorized", "No autorizado")
    }

    /// The authenticated user may not do this.
    pub fn forbidden() -> (r: Self)
        ensures
            r.error@ == "forbidden"@,
            r.message@ == "No tienes permisos para esta acción"@,
    {
        Self::new("forbidden", "No tienes permisos para esta acción")
    }
}

/// What bcrypt's `verify` answers for a password and a stored hash:
/// `Some(b)` when it answers `b`, `None` when it fails — which it does
/// exactly when the hash text does not parse as a bcrypt hash. The salt and
/// cost are part of the hash and the digest comparison is pure, so the
/// verdict is a function of the two texts alone.
pub uninterp spec fn bcrypt_verdict(password: Seq<char>, hash: Seq<char>) -> Option<bool>;

/// Does the password match the stored hash, by bcrypt's digest comparison?
pub open spec fn bcrypt_matches(password: Seq<char>, hash: Seq<char>) -> bool {
    bcrypt_verdict(password, hash) == Some(true)
}

/// The error type bcrypt's operations fail with, carried through opaquely.
#[verifier::external_type_specification]
#[verifier::external_body]
pub struct ExBcryptError(bcrypt::BcryptError);

/// Relies on bcrypt::hash: the salt is drawn from the operating system, so
/// nothing is promised about when it succeeds; but a hash it does return
/// embeds that salt and cost, and bcrypt::verify recomputes the digest from
/// them, so the returned hash verifies against the hashed password.
#[verifier::external_body]
fn bcrypt_hash_raw(password: &str, cost: u32) -> (r: Result<String, bcrypt::BcryptError>)
    ensures
        r is Ok ==> bcrypt_matches(password@, r.unwrap()@),
{
    bcrypt::hash(password, cost)
}

/// Relies on bcrypt::verify: it reads salt and cost back out of the hash
/// text and recomputes the digest, a deterministic function of the password
/// and the hash; it fails exactly when the hash text does not parse.
#[verifier::external_body]
fn bcrypt_verify_raw(password: &str, hash: &str) -> (r: Result<bool, bcrypt::BcryptError>)
    ensures
        match r {
            Ok(b) => bcrypt_verdict(password@, hash@) == Some(b),
            Err(_) => bcrypt_verdict(password@, hash@) is None,
        },
{
    bcrypt::verify(password, hash)
}

/// Hashes a password for storage. On success the hash verifies against the
/// password; a failure of the underlying primitive is reported as a
/// `hash_error`.
pub fn hash_password(password: &str, cost: u32) -> (r: Result<String, AuthError>)
    ensures
        match r {
            Ok(h) => bcrypt_matches(password@, h@),
            Err(e) => e.error@ == "hash_error"@,
        },
{
    match bcrypt_hash_raw(password, cost) {
        Ok(h) => Ok(h),
        Err(_) => Err(AuthError::new("hash_error", "Error al procesar contraseña")),
    }
}

/// Checks a password against a stored hash: bcrypt's answer when the hash
/// parses, a `verification_error` exactly when it does not.
pub fn verify_password(password: &str, hash: &str) -> (r: Result<bool, AuthError>)
    ensures
        match r {
            Ok(b) => bcrypt_verdict(password@, hash@) == Some(b),
            Err(e) => bcrypt_verdict(password@, hash@) is None && e.error@
                == "verification_error"@,
        },
{
    match bcrypt_verify_raw(password, hash) {
        Ok(b) => Ok(b),
        Err(_) => Err(AuthError::new("verification_error", "Error al verificar contraseña")),
    }
}

/// The account-shape checks of a login, in order: the user must exist, be
/// active, and have a stored password hash; the hash is handed back for
/// verification.
pub fn login_precheck(user: &Option<User>) -> (r: Result<String, AuthError>)
    ensures
        match r {
            Ok(h) => {
                &&& user is Some
                &&& user.unwrap().is_active
                &&& user.unwrap().password_hash is Some
                &&& h == user.unwrap().password_hash.unwrap()
            },
            Err(e) => {
                &&& match *user {
                    None => e.error@ == "invalid_credentials"@,
                    Some(ref u) => if !u.is_active {
                        e.error@ == "user_inactive"@
                    } else {
                        u.password_hash is None && e.error@ == "invalid_credentials"@
                    },
                }
            },
        },
{
    match user {
        None => Err(AuthError::invalid_credentials()),
        Some(u) => {
            if !u.is_active {
                Err(AuthError::new("user_inactive", "Usuario inactivo"))
            } else {
                match &u.password_hash {
                    None => Err(AuthError::invalid_credentials()),
                    Some(h) => Ok(h.clone()),
                }
            }
        },
    }
}

/// The whole login decision for a looked-up user: account-shape checks,
/// then bcrypt verification. `Ok` is returned exactly when the account is
/// in shape and the password matched; a stored hash that does not parse is
/// answered with a `verification_error`, a non-matching password with
/// `invalid_credentials`.
pub fn authenticate(user: &Option<User>, password: &str) -> (r: Result<(), AuthError>)
    ensures
        r is Ok ==> {
            &&& user is Some
            &&& user.unwrap().is_active
            &&& user.unwrap().password_hash is Some
            &&& bcrypt_matches(password@, user.unwrap().password_hash.unwrap()@)
        },
        match *user {
            None => r is Err && r.unwrap_err().error@ == "invalid_credentials"@,
            Some(ref u) => {
                &&& !u.is_active ==> r is Err && r.unwrap_err().error@ == "user_inactive"@
                &&& u.is_active && u.password_hash is None ==> r is Err && r.unwrap_err().error@
                    == "invalid_credentials"@
                &&& u.is_active && u.password_hash is Some ==> match r {
                    Ok(_) => bcrypt_verdict(password@, u.password_hash.unwrap()@) == Some(true),
                    Err(e) => {
                        ||| (e.error@ == "invalid_credentials"@ && bcrypt_verdict(
                            password@,
                            u.password_hash.unwrap()@,
                        ) == Some(false))
                        ||| (e.error@ == "verification_error"@ && bcrypt_verdict(
                            password@,
                            u.password_hash.unwrap()@,
                        ) is None)
                    },
                }
            },
        },
{
    let hash = match login_precheck(user) {
        Ok(h) => h,
        Err(e) => {
            return Err(e);
        },
    };
    match verify_password(password, hash.as_str()) {
        Ok(true) => Ok(()),
        Ok(false) => Err(AuthError::invalid_credentials()),
        Err(e) => Err(e),
    }
}

/// A registration name passes when it is not blank.
pub open spec fn valid_reg_name(r: RegisterRequest) -> bool {
    !is_blank(r.name@)
}

/// A registration email passes when it is not blank and carries an `@`.
pub open spec fn valid_reg_email(r: RegisterRequest) -> bool {
    !is_blank(r.email@) && r.email@.contains('@')
}

/// A registration password passes when it is at least six bytes long (the
/// byte length as `str::len` reports it).
pub open spec fn valid_reg_password(r: RegisterRequest) -> bool {
    (encode_utf8(r.password@).len() as usize) >= 6
}

/// The input checks of a registration, in order: name, then email, then
/// password; `Ok` exactly when all three pass.
pub fn validate_registration(req: &RegisterRequest) -> (r: Result<(), AuthError>)
    ensures
        match r {
            Ok(_) => valid_reg_name(*req) && valid_reg_email(*req) && valid_reg_password(*req),
            Err(e) => if !valid_reg_name(*req) {
                e.error@ == "invalid_name"@
            } else if !valid_reg_email(*req) {
                e.error@ == "invalid_email"@
            } else {
                !valid_reg_password(*req) && e.error@ == "weak_password"@
            },
        },
{
    if is_blank_exec(req.name.as_str()) {
        return Err(AuthError::new("invalid_name", "El nombre es requerido"));
    }
    if is_blank_exec(req.email.as_str()) || !contains_char(req.email.as_str(), '@') {
        return Err(AuthError::new("invalid_email", "Email inválido"));
    }
    let pw_len = req.password.as_str().len();
    if pw_len < 6 {
        return Err(AuthError::new("weak_password", "La contraseña debe tener al menos 6 caracteres"));
    }
    Ok(())
}

/// Does the header text start with the `Bearer ` scheme marker?
pub open spec fn has_bearer_prefix(s: Seq<char>) -> bool {
    s.len() >= 7 && s.subrange(0, 7) == "Bearer "@
}

/// The token part of an `Authorization` header: everything after the
/// `Bearer ` marker, or nothing when the marker is absent.
pub fn extract_token_from_header(auth_header: &str) -> (r: Option<&str>)
    ensures
        match r {
            Some(t) => has_bearer_prefix(auth_header@) && t@ == auth_header@.skip(7),
            None => !has_bearer_prefix(auth_header@),
        },
{
    proof {
        reveal_strlit("Bearer ");
    }
    let prefix = "Bearer ";
    let n = auth_header.unicode_len();
    if n < 7 {
        return None;
    }
    let mut i: usize = 0;
    while i < 7
        invariant
            i <= 7,
            7 <= n == auth_header@.len(),
            prefix@ == "Bearer "@,
            prefix@.len() == 7,
            forall|j: int| 0 <= j < i ==> auth_header@[j] == prefix@[j],
        decreases 7 - i,
    {
        if auth_header.get_char(i) != prefix.get_char(i) {
            proof {
                assert(auth_header@.subrange(0, 7)[i as int] == auth_header@[i as int]);
            }
            return None;
        }
        i = i + 1;
    }
    proof {
        assert(auth_header@.subrange(0, 7) =~= "Bearer "@);
    }
    Some(auth_header.substring_char(7, n))
}

/// The claims of a fresh user token: subject is the user id in decimal,
/// identity fields are copied, the token is issued at `now_sec` and expires
/// `expiration_hours` hours later.
pub fn token_claims(user: &User, now_sec: i64, expiration_hours: i64) -> (c: Claims)
    requires
        0 <= now_sec,
        0 <= expiration_hours,
        now_sec + expiration_hours * 3600 <= i64::MAX,
        now_sec + expiration_hours * 3600 <= usize::MAX,
    ensures
        c.sub@ == int_str(user.id as int),
        c.email == user.email,
        c.name == user.name,
        c.is_admin == user.is_admin,
        c.iat == now_sec as usize,
        c.exp == (now_sec + expiration_hours * 3600) as usize,
{
    Claims {
        sub: crate::text::i32_to_string(user.id),
        email: user.email.clone(),
        name: user.name.clone(),
        is_admin: user.is_admin,
        exp: (now_sec + expiration_hours * 3600) as usize,
        iat: now_sec as usize,
    }
}

/// The claims of a long-lived administrator token (seven days), owed
/// exactly to administrators; anyone else is answered with an
/// `invalid_token` error.
pub fn admin_token_claims(user: &User, now_sec: i64) -> (r: Result<Claims, AuthError>)
    requires
        0 <= now_sec,
        now_sec + 604_800 <= i64::MAX,
        now_sec + 604_800 <= usize::MAX,
    ensures
        match r {
            Ok(c) => {
                &&& user.is_admin
                &&& c.sub@ == int_str(user.id as int)
                &&& c.email == user.email
                &&& c.name == user.name
                &&& c.is_admin == user.is_admin
                &&& c.iat == now_sec as usize
                &&& c.exp == (now_sec + 604_800) as usize
            },
            Err(e) => !user.is_admin && e.error@ == "invalid_token"@,
        },
{
    if !user.is_admin {
        return Err(AuthError::invalid_token());
    }
    Ok(
        Claims {
            sub: crate::text::i32_to_string(user.id),
            email: user.email.clone(),
            name: user.name.clone(),
            is_admin: user.is_admin,
            exp: (now_sec + 604_800) as usize,
            iat: now_sec as usize,
        },
    )
}

/// Has the token expired as of `now_sec` (seconds since the Unix epoch)?
pub fn is_token_expired(claims: &Claims, now_sec: usize) -> (r: bool)
    ensures
        r == (claims.exp < now_sec),
{
    claims.exp < now_sec
}

} // verus!
