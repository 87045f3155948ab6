use staticauth::auth::hash_password;
use staticauth::auth::UserDb;
use staticauth::router::authenticate;
use staticauth::router::check_origin;
use staticauth::router::signout;
use staticauth::router::userinfo;
use staticauth::router::AuthError;
use staticauth::router::AuthRequest;
use staticauth::router::HostPort;
use staticauth::router::ServiceConfig;

fn config_with(users: Vec<(String, String)>) -> ServiceConfig {
    ServiceConfig {
        session_absolute_timeout: 720 * 3600,
        session_secret_key: (0u8..64).collect(),
        users: UserDb { entries: users },
    }
}

fn local(port: Option<u16>) -> HostPort {
    HostPort { hostname: "auth.example".into(), port }
}

fn request(username: &str, password: &str, rd: Option<&str>) -> AuthRequest {
    AuthRequest {
        username: username.into(),
        password: password.into(),
        redirect_to: rd.map(|s| s.to_string()),
    }
}

#[test]
fn authenticate_then_check_session_end_to_end() {
    let config = config_with(vec![("user".into(), hash_password("p@ssw0rd").unwrap())]);
    let now = 1_700_000_000;
    let grant = authenticate(
        &config,
        &local(None),
        &local(None),
        "/authenticate",
        &request("user", "p@ssw0rd", Some("")),
        now,
    )
    .expect("valid credentials must authenticate");
    assert_eq!("/userinfo", grant.redirect_to);
    assert_eq!("user", grant.subject);

    let session = userinfo(&config, Some(&grant.cookie_value), now + 10)
        .expect("a freshly issued cookie must check");
    assert_eq!("user", session.subject);
    assert_eq!(now, session.issued_at);

    let target = signout("/signout", &None).expect("default sign-out target is valid");
    assert_eq!("/signin", target);

    // the cookie is cleared by the caller after sign-out: no cookie, no session
    assert_eq!(Err(AuthError::Unauthenticated), userinfo(&config, None, now + 20).map(|_| ()));
}

#[test]
fn expired_session_is_unauthenticated() {
    let config = config_with(vec![("user".into(), hash_password("p@ssw0rd").unwrap())]);
    let now = 1_700_000_000;
    let grant = authenticate(
        &config,
        &local(None),
        &local(None),
        "/authenticate",
        &request("user", "p@ssw0rd", None),
        now,
    )
    .unwrap();
    let at_expiry = now + config.session_absolute_timeout;
    assert!(userinfo(&config, Some(&grant.cookie_value), at_expiry).is_ok());
    assert_eq!(
        Err(AuthError::Unauthenticated),
        userinfo(&config, Some(&grant.cookie_value), at_expiry + 1).map(|_| ())
    );
}

#[test]
fn cross_origin_is_rejected_before_any_hashing() {
    // the only user has an unusable hash: if any password comparison ran,
    // the outcome would be InternalError, not InvalidOrigin
    let config = config_with(vec![("user".into(), "invalid".into())]);
    let origin = HostPort { hostname: "evil.example".into(), port: None };
    let r = authenticate(
        &config,
        &origin,
        &local(None),
        "/authenticate",
        &request("user", "p@ssw0rd", None),
        0,
    );
    assert_eq!(Err(AuthError::InvalidOrigin), r.map(|_| ()));

    let port_mismatch = authenticate(
        &config,
        &local(Some(8080)),
        &local(None),
        "/authenticate",
        &request("user", "p@ssw0rd", None),
        0,
    );
    assert_eq!(Err(AuthError::InvalidOrigin), port_mismatch.map(|_| ()));
}

#[test]
fn invalid_redirect_is_rejected_before_credentials() {
    let config = config_with(vec![("user".into(), "invalid".into())]);
    let r = authenticate(
        &config,
        &local(None),
        &local(None),
        "/authenticate",
        &request("user", "p@ssw0rd", Some("https://evil.example/x")),
        0,
    );
    assert_eq!(Err(AuthError::InvalidRedirect), r.map(|_| ()));
}

#[test]
fn wrong_credentials_are_invalid_credential() {
    let config = config_with(vec![("user".into(), hash_password("p@ssw0rd").unwrap())]);
    let wrong_password = authenticate(
        &config,
        &local(None),
        &local(None),
        "/authenticate",
        &request("user", "nope", None),
        0,
    );
    assert_eq!(Err(AuthError::InvalidCredential), wrong_password.map(|_| ()));
    let wrong_user = authenticate(
        &config,
        &local(None),
        &local(None),
        "/authenticate",
        &request("nobody", "p@ssw0rd", None),
        0,
    );
    assert_eq!(Err(AuthError::InvalidCredential), wrong_user.map(|_| ()));
}

#[test]
fn verifier_failure_is_internal_error() {
    let broken = config_with(vec![("user".into(), "invalid".into())]);
    let r = authenticate(
        &broken,
        &local(None),
        &local(None),
        "/authenticate",
        &request("user", "p@ssw0rd", None),
        0,
    );
    assert_eq!(Err(AuthError::InternalError), r.map(|_| ()));

    let empty = config_with(vec![]);
    let r2 = authenticate(
        &empty,
        &local(None),
        &local(None),
        "/authenticate",
        &request("user", "p@ssw0rd", None),
        0,
    );
    assert_eq!(Err(AuthError::InternalError), r2.map(|_| ()));
}

#[test]
fn tampered_cookie_is_unauthenticated() {
    let config = config_with(vec![("user".into(), hash_password("p@ssw0rd").unwrap())]);
    let grant = authenticate(
        &config,
        &local(None),
        &local(None),
        "/authenticate",
        &request("user", "p@ssw0rd", None),
        100,
    )
    .unwrap();
    let mut tampered = grant.cookie_value.clone().into_bytes();
    tampered[0] = if tampered[0] == b'A' { b'B' } else { b'A' };
    let tampered = String::from_utf8(tampered).unwrap();
    assert_eq!(
        Err(AuthError::Unauthenticated),
        userinfo(&config, Some(&tampered), 100).map(|_| ())
    );
}

#[test]
fn signout_rejects_external_targets() {
    assert_eq!(
        Err(AuthError::InvalidRedirect),
        signout("/signout", &Some("https://evil.example/".to_string())).map(|_| ())
    );
    assert_eq!(Ok("/bye".to_string()), signout("/signout", &Some("/bye".to_string())));
    assert_eq!(Ok("/signin".to_string()), signout("/signout", &Some("".to_string())));
}

#[test]
fn origin_check_compares_host_and_port() {
    assert!(check_origin(&local(Some(443)), &local(Some(443))));
    assert!(!check_origin(&local(Some(443)), &local(Some(80))));
    assert!(!check_origin(&local(None), &local(Some(80))));
    assert!(!check_origin(
        &HostPort { hostname: "a.example".into(), port: None },
        &HostPort { hostname: "b.example".into(), port: None }
    ));
}

#[test]
fn error_mapping_is_exhaustive_and_fixed() {
    let table = [
        (AuthError::InvalidCredential, 400, "invalid_credential"),
        (AuthError::InvalidOrigin, 400, "invalid_origin"),
        (AuthError::InvalidRedirect, 400, "invalid_redirect"),
        (AuthError::Unauthenticated, 401, "unauthenticated"),
        (AuthError::InternalError, 500, "internal_error"),
    ];
    for (err, status, token) in table {
        assert_eq!(status, err.status_code());
        assert_eq!(token, err.error_token());
    }
}
