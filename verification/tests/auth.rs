use staticauth::auth::hash_password;
use staticauth::auth::verify_password;
use staticauth::auth::PasswordError;
use staticauth::auth::UserDb;

fn db(entries: Vec<(String, String)>) -> UserDb {
    UserDb { entries }
}

#[test]
fn test_hash_password_ok() {
    let actual = hash_password("p@ssw0rd");
    assert!(actual.is_ok());
}

#[test]
fn test_verify_password_ok() {
    let users = db(vec![("user".into(), hash_password("p@ssw0rd").unwrap())]);
    let expected = Ok(true);
    let actual = verify_password(&users, "user", "p@ssw0rd");
    assert_eq!(expected, actual);
}

#[test]
fn test_verify_password_wrong_password() {
    let users = db(vec![("user".into(), hash_password("p@ssw0rd").unwrap())]);
    let expected = Ok(false);
    let actual = verify_password(&users, "user", "wrong-p@ssw0rd");
    assert_eq!(expected, actual);
}

#[test]
fn test_verify_password_wrong_username() {
    let users = db(vec![("user".into(), hash_password("p@ssw0rd").unwrap())]);
    let expected = Ok(false);
    let actual = verify_password(&users, "wrong-user", "p@ssw0rd");
    assert_eq!(expected, actual);
}

#[test]
fn test_verify_password_invalid_hash() {
    let users = db(vec![("user".into(), "invalid".into())]);
    let actual = verify_password(&users, "user", "p@ssw0rd");
    assert!(matches!(actual, Err(PasswordError::InvalidPasswordHash)));
}

#[test]
fn verify_password_empty_user_list() {
    let users = db(vec![]);
    let actual = verify_password(&users, "user", "p@ssw0rd");
    assert_eq!(Err(PasswordError::EmptyUserList), actual);
}

#[test]
fn verify_password_unknown_user_with_invalid_first_hash() {
    // the unknown-user path still consults the first entry's hash, so a
    // broken first entry surfaces as the configuration defect
    let users = db(vec![("user".into(), "invalid".into())]);
    let actual = verify_password(&users, "nobody", "p@ssw0rd");
    assert!(matches!(actual, Err(PasswordError::InvalidPasswordHash)));
}

#[test]
fn hash_password_output_is_not_the_password() {
    let h = hash_password("p@ssw0rd").unwrap();
    assert_ne!(h, "p@ssw0rd");
    assert!(h.starts_with("$argon2"));
}
