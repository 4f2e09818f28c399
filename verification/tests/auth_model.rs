use venta_libre::auth::{
    admin_token_claims, authenticate, extract_token_from_header, hash_password, is_token_expired,
    login_precheck, token_claims, validate_registration, AuthError, RegisterRequest,
};
use venta_libre::user::User;

fn user(id: i32, is_admin: bool, is_active: bool, password_hash: Option<String>) -> User {
    User {
        id,
        name: "Ana".to_string(),
        email: "ana@example.com".to_string(),
        password_hash,
        is_admin,
        is_active,
        created_at: Some(1_700_000_000_000),
        updated_at: None,
    }
}

fn reg(name: &str, email: &str, password: &str) -> RegisterRequest {
    RegisterRequest {
        name: name.to_string(),
        email: email.to_string(),
        password: password.to_string(),
    }
}

#[test]
fn registration_rejects_blank_name() {
    let e = validate_registration(&reg("", "a@b.c", "secret1")).unwrap_err();
    assert_eq!(e.error, "invalid_name");
    let e = validate_registration(&reg("  \t ", "a@b.c", "secret1")).unwrap_err();
    assert_eq!(e.error, "invalid_name");
}

#[test]
fn registration_rejects_bad_email() {
    let e = validate_registration(&reg("Ana", "", "secret1")).unwrap_err();
    assert_eq!(e.error, "invalid_email");
    let e = validate_registration(&reg("Ana", "not-an-address", "secret1")).unwrap_err();
    assert_eq!(e.error, "invalid_email");
}

#[test]
fn registration_rejects_short_password() {
    let e = validate_registration(&reg("Ana", "a@b.c", "five5")).unwrap_err();
    assert_eq!(e.error, "weak_password");
}

#[test]
fn registration_accepts_valid_input() {
    assert!(validate_registration(&reg("Ana", "a@b.c", "secret")).is_ok());
}

#[test]
fn password_hash_round_trip() {
    let hash = hash_password("hunter2secret", 4).expect("hashing succeeds");
    let u = Some(user(1, false, true, Some(hash)));
    assert!(authenticate(&u, "hunter2secret").is_ok());
    let e = authenticate(&u, "wrong-password").unwrap_err();
    assert_eq!(e.error, "invalid_credentials");
}

#[test]
fn login_shape_checks() {
    let e = login_precheck(&None).unwrap_err();
    assert_eq!(e.error, "invalid_credentials");
    let e = login_precheck(&Some(user(1, false, false, Some("h".to_string())))).unwrap_err();
    assert_eq!(e.error, "user_inactive");
    let e = login_precheck(&Some(user(1, false, true, None))).unwrap_err();
    assert_eq!(e.error, "invalid_credentials");
    let h = login_precheck(&Some(user(1, false, true, Some("h".to_string())))).unwrap();
    assert_eq!(h, "h");
}

#[test]
fn bearer_token_extraction() {
    assert_eq!(extract_token_from_header("Bearer abc.def"), Some("abc.def"));
    assert_eq!(extract_token_from_header("Bearer "), Some(""));
    assert_eq!(extract_token_from_header("bearer abc"), None);
    assert_eq!(extract_token_from_header("Basic abc"), None);
    assert_eq!(extract_token_from_header("Bear"), None);
    assert_eq!(extract_token_from_header(""), None);
}

#[test]
fn token_claims_fields() {
    let u = user(42, false, true, None);
    let c = token_claims(&u, 1_000, 24);
    assert_eq!(c.sub, "42");
    assert_eq!(c.email, "ana@example.com");
    assert_eq!(c.name, "Ana");
    assert!(!c.is_admin);
    assert_eq!(c.iat, 1_000);
    assert_eq!(c.exp, 1_000 + 24 * 3600);
}

#[test]
fn token_claims_negative_id() {
    let u = user(-7, false, true, None);
    let c = token_claims(&u, 0, 1);
    assert_eq!(c.sub, "-7");
}

#[test]
fn admin_token_is_owed_to_admins_only() {
    let e = admin_token_claims(&user(1, false, true, None), 500).unwrap_err();
    assert_eq!(e.error, "invalid_token");
    let c = admin_token_claims(&user(1, true, true, None), 500).unwrap();
    assert!(c.is_admin);
    assert_eq!(c.exp, 500 + 7 * 24 * 3600);
    assert_eq!(c.iat, 500);
}

#[test]
fn token_expiry_is_strict() {
    let u = user(1, false, true, None);
    let c = token_claims(&u, 10, 0);
    assert!(!is_token_expired(&c, 10));
    assert!(is_token_expired(&c, 11));
}

#[test]
fn error_constructors_carry_stable_codes() {
    assert_eq!(AuthError::invalid_credentials().error, "invalid_credentials");
    assert_eq!(AuthError::user_not_found().error, "user_not_found");
    assert_eq!(AuthError::email_exists().error, "email_exists");
    assert_eq!(AuthError::invalid_token().error, "invalid_token");
    assert_eq!(AuthError::unauthorized().error, "unauthorized");
    assert_eq!(AuthError::forbidden().error, "forbidden");
    let e = AuthError::new("code", "message");
    assert_eq!(e.error, "code");
    assert_eq!(e.message, "message");
}

#[test]
fn user_public_view_hides_secrets() {
    let u = user(3, true, true, Some("hash".to_string()));
    let p = u.to_public();
    assert_eq!(p.id, 3);
    assert_eq!(p.name, "Ana");
    assert_eq!(p.email, "ana@example.com");
    assert!(p.is_admin);
    assert!(p.is_active);
    assert_eq!(p.created_at, Some(1_700_000_000_000));
}

#[test]
fn admin_requires_active_account() {
    assert!(user(1, true, true, None).is_admin());
    assert!(!user(1, true, false, None).is_admin());
    assert!(!user(1, false, true, None).is_admin());
    assert!(user(1, false, true, None).is_active());
    assert!(!user(1, false, false, None).is_active());
}

#[test]
fn error_messages_keep_their_wording() {
    assert_eq!(AuthError::invalid_credentials().message, "Email o contraseña incorrectos");
    assert_eq!(AuthError::user_not_found().message, "Usuario no encontrado");
    assert_eq!(AuthError::email_exists().message, "Este email ya está registrado");
    assert_eq!(AuthError::invalid_token().message, "Token inválido o expirado");
    assert_eq!(AuthError::unauthorized().message, "No autorizado");
    assert_eq!(AuthError::forbidden().message, "No tienes permisos para esta acción");
}

#[test]
fn malformed_stored_hash_is_a_verification_error() {
    let u = Some(user(1, false, true, Some("not-a-bcrypt-hash".to_string())));
    let e = authenticate(&u, "whatever").unwrap_err();
    assert_eq!(e.error, "verification_error");
}
