use vstd::prelude::*;

verus! {

use vstd::utf8::encode_utf8;
use crate::auth::UserDb;
use crate::auth::credential_check;
use crate::auth::verify_password;
use crate::session::Session;
use crate::session::ValidationOptions;
use crate::session::session_is_valid;
use crate::session::sign_of;
use crate::session::payload_chars;
use crate::session::from_cookie_spec;
use crate::redirection::normalize_spec;
use crate::redirection::normalize_path;
use crate::text::str_eq;

// ============================================================================
// The authentication protocol.
//
// Four operations over an immutable configuration: authenticate (issue a
// session after origin, redirect and credential gates pass, in that order),
// check the session behind a cookie, and validate a sign-out redirect. The
// outcome of each operation is a deterministic function of its inputs and
// the current time, written down below as specification functions that the
// executable handlers are proved to implement.
// ============================================================================
/// Process-wide immutable configuration: the absolute session timeout in
/// seconds, the signing key, and the credential list.
pub struct ServiceConfig {
    pub session_absolute_timeout: u64,
    pub session_secret_key: Vec<u8>,
    pub users: UserDb,
}

/// A host name with an optional port, as an origin-bearing header carries
/// them.
pub struct HostPort {
    pub hostname: String,
    pub port: Option<u16>,
}

/// Protocol-level failures, one per refused gate.
#[derive(Debug, Clone, Copy, PartialEq, Eq)]
pub enum AuthError {
    InvalidCredential,
    InvalidOrigin,
    InvalidRedirect,
    Unauthenticated,
    InternalError,
}

impl AuthError {
    /// The transport status each failure maps to: a closed, exhaustive
    /// table.
    pub fn status_code(&self) -> (r: u16)
        ensures
            r == (match self {
                AuthError::InvalidCredential => 400u16,
                AuthError::InvalidOrigin => 400u16,
                AuthError::InvalidRedirect => 400u16,
                AuthError::Unauthenticated => 401u16,
                AuthError::InternalError => 500u16,
            }),
    {
        match self {
            AuthError::InvalidCredential => 400,
            AuthError::InvalidOrigin => 400,
            AuthError::InvalidRedirect => 400,
            AuthError::Unauthenticated => 401,
            AuthError::InternalError => 500,
        }
    }

    /// The stable error token sent in response bodies.
    pub fn error_token(&self) -> (r: &'static str)
        ensures
            (self is InvalidCredential ==> r@ == "invalid_credential"@),
            (self is InvalidOrigin ==> r@ == "invalid_origin"@),
            (self is InvalidRedirect ==> r@ == "invalid_redirect"@),
            (self is Unauthenticated ==> r@ == "unauthenticated"@),
            (self is InternalError ==> r@ == "internal_error"@),
    {
        match self {
            AuthError::InvalidCredential => "invalid_credential",
            AuthError::InvalidOrigin => "invalid_origin",
            AuthError::InvalidRedirect => "invalid_redirect",
            AuthError::Unauthenticated => "unauthenticated",
            AuthError::InternalError => "internal_error",
        }
    }
}

// ---------------------------------------------------------------------------
// Origin gate
// ---------------------------------------------------------------------------
pub open spec fn origin_matches(
    origin_host: Seq<char>,
    origin_port: Option<u16>,
    host_host: Seq<char>,
    host_port: Option<u16>,
) -> bool {
    origin_host == host_host && origin_port == host_port
}

/// A request's declared origin must name the very host it was sent to.
pub fn check_origin(origin: &HostPort, host: &HostPort) -> (r: bool)
    ensures
        r == origin_matches(origin.hostname@, origin.port, host.hostname@, host.port),
{
    let names = str_eq(origin.hostname.as_str(), host.hostname.as_str());
    let ports = match (&origin.port, &host.port) {
        (Some(a), Some(b)) => *a == *b,
        (None, None) => true,
        _ => false,
    };
    names && ports
}

// ---------------------------------------------------------------------------
// Redirect defaults
// ---------------------------------------------------------------------------
/// Where a successful sign-in lands when no target was asked for.
pub open spec fn default_signin_target() -> Seq<char> {
    "./userinfo"@
}

/// Where a sign-out lands when no target was asked for; distinct from the
/// post-login default.
pub open spec fn default_signout_target() -> Seq<char> {
    "./signin"@
}

/// The target actually resolved: the request's, unless absent or empty.
pub open spec fn effective_target(rd: Option<Seq<char>>, default: Seq<char>) -> Seq<char> {
    match rd {
        Some(r) => if r.len() == 0 {
            default
        } else {
            r
        },
        None => default,
    }
}

pub open spec fn opt_str_view(o: Option<String>) -> Option<Seq<char>> {
    match o {
        Some(s) => Some(s@),
        None => None,
    }
}

// ---------------------------------------------------------------------------
// Authenticate
// ---------------------------------------------------------------------------
/// A sign-in request: credentials and an optional redirect target.
pub struct AuthRequest {
    pub username: String,
    pub password: String,
    pub redirect_to: Option<String>,
}

/// What a successful authentication hands back: the resolved redirect
/// target, the signed cookie value, and the authenticated subject.
pub struct AuthGrant {
    pub redirect_to: String,
    pub cookie_value: String,
    pub subject: String,
}

/// The complete outcome of an authenticate request, as a function of the
/// configuration, the request and the current time. The gates run in strict
/// order — origin, then redirect, then credentials — and each failure is
/// terminal, so a cross-origin request is decided before any credential is
/// looked at. `Ok` carries the resolved target (as bytes) and the signed
/// cookie value.
pub open spec fn authenticate_spec(
    users: Seq<(Seq<char>, Seq<char>)>,
    key: Seq<u8>,
    origin_host: Seq<char>,
    origin_port: Option<u16>,
    host_host: Seq<char>,
    host_port: Option<u16>,
    path: Seq<char>,
    username: Seq<char>,
    password: Seq<char>,
    redirect_to: Option<Seq<char>>,
    now: u64,
) -> Result<(Seq<u8>, Seq<char>), AuthError> {
    if !origin_matches(origin_host, origin_port, host_host, host_port) {
        Err(AuthError::InvalidOrigin)
    } else {
        let rd = effective_target(redirect_to, default_signin_target());
        match normalize_spec(encode_utf8(path), encode_utf8(rd)) {
            None => Err(AuthError::InvalidRedirect),
            Some(target) => match credential_check(users, username, password) {
                Err(_) => Err(AuthError::InternalError),
                Ok(false) => Err(AuthError::InvalidCredential),
                Ok(true) => Ok((target, sign_of(key, payload_chars(username, now)))),
            },
        }
    }
}

/// Authenticate a sign-in request at time `now`.
///
/// On success the grant's cookie value deserialises, under the same key,
/// back to the session `(username, now)` — the basis for the end-to-end
/// guarantee that an issued cookie passes the session check.
pub fn authenticate(
    config: &ServiceConfig,
    origin: &HostPort,
    host: &HostPort,
    request_path: &str,
    req: &AuthRequest,
    now: u64,
) -> (r: Result<AuthGrant, AuthError>)
    requires
        config.session_secret_key@.len() >= 64,
    ensures
        match r {
            Ok(g) => authenticate_spec(
                config.users@,
                config.session_secret_key@,
                origin.hostname@,
                origin.port,
                host.hostname@,
                host.port,
                request_path@,
                req.username@,
                req.password@,
                opt_str_view(req.redirect_to),
                now,
            ) == Ok::<_, AuthError>((encode_utf8(g.redirect_to@), g.cookie_value@))
                && g.subject@ == req.username@ && from_cookie_spec(
                config.session_secret_key@,
                g.cookie_value@,
            ) == Some((req.username@, now)),
            Err(e) => authenticate_spec(
                config.users@,
                config.session_secret_key@,
                origin.hostname@,
                origin.port,
                host.hostname@,
                host.port,
                request_path@,
                req.username@,
                req.password@,
                opt_str_view(req.redirect_to),
                now,
            ) == Err::<(Seq<u8>, Seq<char>), _>(e),
        },
{
    if !check_origin(origin, host) {
        return Err(AuthError::InvalidOrigin);
    }
    let rd: &str = match &req.redirect_to {
        Some(s) => {
            if s.as_str().is_empty() {
                "./userinfo"
            } else {
                s.as_str()
            }
        },
        None => "./userinfo",
    };
    let target = match normalize_path(request_path, rd) {
        Some(t) => t,
        None => {
            return Err(AuthError::InvalidRedirect);
        },
    };
    let ok = match verify_password(&config.users, req.username.as_str(), req.password.as_str()) {
        Ok(b) => b,
        Err(_) => {
            return Err(AuthError::InternalError);
        },
    };
    if !ok {
        return Err(AuthError::InvalidCredential);
    }
    let session = Session { subject: req.username.clone(), issued_at: now };
    let cookie_value = session.to_cookie(&config.session_secret_key);
    Ok(AuthGrant { redirect_to: target, cookie_value, subject: session.subject })
}

/// A cross-origin request is refused as `InvalidOrigin` whatever
/// credentials, user list, key or redirect it carries: the outcome cannot
/// depend on any password comparison.
pub proof fn lemma_cross_origin_rejected(
    users: Seq<(Seq<char>, Seq<char>)>,
    key: Seq<u8>,
    origin_host: Seq<char>,
    origin_port: Option<u16>,
    host_host: Seq<char>,
    host_port: Option<u16>,
    path: Seq<char>,
    username: Seq<char>,
    password: Seq<char>,
    redirect_to: Option<Seq<char>>,
    now: u64,
)
    requires
        !origin_matches(origin_host, origin_port, host_host, host_port),
    ensures
        authenticate_spec(
            users,
            key,
            origin_host,
            origin_port,
            host_host,
            host_port,
            path,
            username,
            password,
            redirect_to,
            now,
        ) == Err::<(Seq<u8>, Seq<char>), AuthError>(AuthError::InvalidOrigin),
{
}

// ---------------------------------------------------------------------------
// Session check
// ---------------------------------------------------------------------------
/// The outcome of the session-check endpoint: no cookie, a cookie that does
/// not verify, and an expired session all collapse into `Unauthenticated`.
pub open spec fn check_session_spec(
    key: Seq<u8>,
    cookie: Option<Seq<char>>,
    now: u64,
    timeout: u64,
) -> Result<(Seq<char>, u64), AuthError> {
    match cookie {
        None => Err(AuthError::Unauthenticated),
        Some(v) => match from_cookie_spec(key, v) {
            None => Err(AuthError::Unauthenticated),
            Some((subject, issued_at)) => if session_is_valid(issued_at, timeout, now) {
                Ok((subject, issued_at))
            } else {
                Err(AuthError::Unauthenticated)
            },
        },
    }
}

pub open spec fn opt_ref_str_view(o: Option<&String>) -> Option<Seq<char>> {
    match o {
        Some(s) => Some(s@),
        None => None,
    }
}

/// Check the session carried by the request's cookie at time `now`.
pub fn userinfo(config: &ServiceConfig, cookie_value: Option<&String>, now: u64) -> (r: Result<
    Session,
    AuthError,
>)
    requires
        config.session_secret_key@.len() >= 64,
    ensures
        match r {
            Ok(sess) => check_session_spec(
                config.session_secret_key@,
                opt_ref_str_view(cookie_value),
                now,
                config.session_absolute_timeout,
            ) == Ok::<_, AuthError>((sess.subject@, sess.issued_at)),
            Err(e) => check_session_spec(
                config.session_secret_key@,
                opt_ref_str_view(cookie_value),
                now,
                config.session_absolute_timeout,
            ) == Err::<(Seq<char>, u64), _>(e),
        },
{
    let value = match cookie_value {
        Some(v) => v,
        None => {
            return Err(AuthError::Unauthenticated);
        },
    };
    let session = match Session::from_cookie(value.as_str(), &config.session_secret_key) {
        Some(s) => s,
        None => {
            return Err(AuthError::Unauthenticated);
        },
    };
    let valid = session.is_valid(
        ValidationOptions { now, absolute_timeout: config.session_absolute_timeout },
    );
    if valid {
        Ok(session)
    } else {
        Err(AuthError::Unauthenticated)
    }
}

/// A cookie that deserialises to a session is accepted by the session check
/// at any time up to its absolute expiry, and refused after it.
pub proof fn lemma_issued_cookie_checks(
    key: Seq<u8>,
    cookie: Seq<char>,
    subject: Seq<char>,
    issued_at: u64,
    now: u64,
    timeout: u64,
)
    requires
        from_cookie_spec(key, cookie) == Some((subject, issued_at)),
    ensures
        issued_at + timeout >= now ==> check_session_spec(key, Some(cookie), now, timeout)
            == Ok::<_, AuthError>((subject, issued_at)),
        issued_at + timeout < now ==> check_session_spec(key, Some(cookie), now, timeout)
            == Err::<(Seq<char>, u64), _>(AuthError::Unauthenticated),
{
}

// ---------------------------------------------------------------------------
// Sign-out
// ---------------------------------------------------------------------------
/// The outcome of a sign-out request: the validated redirect target, or a
/// refusal that leaves the cookie untouched.
pub open spec fn signout_spec(path: Seq<char>, redirect_to: Option<Seq<char>>) -> Result<
    Seq<u8>,
    AuthError,
> {
    let rd = effective_target(redirect_to, default_signout_target());
    match normalize_spec(encode_utf8(path), encode_utf8(rd)) {
        None => Err(AuthError::InvalidRedirect),
        Some(target) => Ok(target),
    }
}

/// Validate a sign-out redirect target; only on `Ok` may the caller clear
/// the cookie and redirect.
pub fn signout(request_path: &str, redirect_to: &Option<String>) -> (r: Result<String, AuthError>)
    ensures
        match r {
            Ok(target) => signout_spec(request_path@, opt_str_view(*redirect_to)) == Ok::<
                _,
                AuthError,
            >(encode_utf8(target@)),
            Err(e) => signout_spec(request_path@, opt_str_view(*redirect_to)) == Err::<Seq<u8>, _>(
                e,
            ),
        },
{
    let rd: &str = match redirect_to {
        Some(s) => {
            if s.as_str().is_empty() {
                "./signin"
            } else {
                s.as_str()
            }
        },
        None => "./signin",
    };
    match normalize_path(request_path, rd) {
        Some(t) => Ok(t),
        None => Err(AuthError::InvalidRedirect),
    }
}

} // verus!
