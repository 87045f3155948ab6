use staticauth::session::Session;
use staticauth::session::ValidationOptions;

fn key() -> Vec<u8> {
    (0u8..64).collect()
}

#[test]
fn test_session_is_valid_ok() {
    let options = ValidationOptions { now: 100000 + 100, absolute_timeout: 100 };
    let session = Session { subject: "".into(), issued_at: 100000 };
    let expected = true;
    let actual = session.is_valid(options);
    assert_eq!(expected, actual);
}

#[test]
fn test_session_is_valid_expired() {
    let options = ValidationOptions { now: 100000 + 101, absolute_timeout: 100 };
    let session = Session { subject: "".into(), issued_at: 100000 };
    let expected = false;
    let actual = session.is_valid(options);
    assert_eq!(expected, actual);
}

#[test]
fn cookie_round_trip() {
    let key = key();
    let session = Session { subject: "alice".into(), issued_at: 123456789 };
    let cookie = session.to_cookie(&key);
    let back = Session::from_cookie(&cookie, &key).expect("value just sealed must open");
    assert_eq!("alice", back.subject);
    assert_eq!(123456789, back.issued_at);
}

#[test]
fn cookie_round_trip_with_odd_subject() {
    let key = key();
    let session = Session { subject: "a:b:\u{3042} c".into(), issued_at: 0 };
    let cookie = session.to_cookie(&key);
    let back = Session::from_cookie(&cookie, &key).unwrap();
    assert_eq!("a:b:\u{3042} c", back.subject);
    assert_eq!(0, back.issued_at);
}

#[test]
fn tampered_cookie_is_refused() {
    let key = key();
    let session = Session { subject: "alice".into(), issued_at: 123456789 };
    let cookie = session.to_cookie(&key);
    // flip one character at every position in turn; no variant may verify
    for i in 0..cookie.len() {
        let mut bytes = cookie.clone().into_bytes();
        bytes[i] = if bytes[i] == b'A' { b'B' } else { b'A' };
        if let Ok(changed) = String::from_utf8(bytes) {
            if changed != cookie {
                assert!(
                    Session::from_cookie(&changed, &key).is_none(),
                    "tampered cookie accepted at byte {}",
                    i
                );
            }
        }
    }
}

#[test]
fn wrong_key_is_refused() {
    let key = key();
    let other: Vec<u8> = (1u8..65).collect();
    let session = Session { subject: "alice".into(), issued_at: 1 };
    let cookie = session.to_cookie(&key);
    assert!(Session::from_cookie(&cookie, &other).is_none());
}

#[test]
fn garbage_cookie_is_refused() {
    let key = key();
    assert!(Session::from_cookie("", &key).is_none());
    assert!(Session::from_cookie("not a signed value", &key).is_none());
}

#[test]
fn cookie_value_is_not_the_bare_payload() {
    let key = key();
    let session = Session { subject: "alice".into(), issued_at: 7 };
    let cookie = session.to_cookie(&key);
    assert_ne!(cookie, "7:alice");
}
