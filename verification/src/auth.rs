use vstd::prelude::*;

use argon2::PasswordHasher;
use argon2::PasswordVerifier;

verus! {

use crate::text::str_eq;

// ============================================================================
// Credential verification.
//
// The username→password-hash list is fixed at startup. Verification is
// resistant to username enumeration by timing: when the username is unknown,
// a full hash verification still runs against an existing entry's hash and
// the result is unconditionally "no match", so the code path and elapsed
// time look like a wrong password for an existing user.
// ============================================================================
/// Failures of the credential layer. A malformed stored hash is a
/// configuration defect, never conflated with a wrong credential.
#[derive(Debug, Clone, Copy, PartialEq, Eq)]
pub enum PasswordError {
    EmptyUserList,
    InvalidPasswordHash,
    HashingFailed,
}

/// The immutable username→password-hash list.
pub struct UserDb {
    pub entries: Vec<(String, String)>,
}

impl View for UserDb {
    type V = Seq<(Seq<char>, Seq<char>)>;

    open spec fn view(&self) -> Seq<(Seq<char>, Seq<char>)> {
        Seq::new(self.entries@.len(), |i: int| (self.entries@[i].0@, self.entries@[i].1@))
    }
}

/// The stored hash of the first entry whose username is `u`, if any.
pub open spec fn find_user(entries: Seq<(Seq<char>, Seq<char>)>, u: Seq<char>) -> Option<Seq<char>>
    decreases entries.len(),
{
    if entries.len() == 0 {
        None
    } else if entries[0].0 == u {
        Some(entries[0].1)
    } else {
        find_user(entries.drop_first(), u)
    }
}

/// The hash a verification run consults: the matching entry's, or an
/// arbitrary existing entry's (the first) when the username is unknown.
pub open spec fn consulted_hash(entries: Seq<(Seq<char>, Seq<char>)>, u: Seq<char>) -> Seq<char>
    recommends
        entries.len() > 0,
{
    match find_user(entries, u) {
        Some(h) => h,
        None => entries[0].1,
    }
}

// ---------------------------------------------------------------------------
// The password-hash primitive, trusted
// ---------------------------------------------------------------------------
/// Whether a stored hash string parses and carries parameters the verifier
/// accepts: a function of the hash string alone.
pub uninterp spec fn hash_is_valid(hash: Seq<char>) -> bool;

/// Whether a password matches a stored hash: a function of the two strings
/// alone (the salt and parameters are embedded in the hash string).
pub uninterp spec fn password_matches(hash: Seq<char>, password: Seq<char>) -> bool;

enum HashCheck {
    Match,
    Mismatch,
    BadHash,
}

/// Relies on argon2's `PasswordHash::new` and `Argon2::verify_password`:
/// parsing and matching are deterministic in the hash and password strings;
/// a mismatch is reported as `Error::Password`, every other failure means
/// the stored hash is unusable.
#[verifier::external_body]
fn check_password_hash(hash: &str, password: &str) -> (r: HashCheck)
    ensures
        (r is BadHash) <==> !hash_is_valid(hash@),
        hash_is_valid(hash@) ==> ((r is Match) <==> password_matches(hash@, password@)),
{
    match argon2::PasswordHash::new(hash) {
        Ok(parsed) => match argon2::Argon2::default().verify_password(
            password.as_bytes(),
            &parsed,
        ) {
            Ok(()) => HashCheck::Match,
            Err(argon2::password_hash::Error::Password) => HashCheck::Mismatch,
            Err(_) => HashCheck::BadHash,
        },
        Err(_) => HashCheck::BadHash,
    }
}

/// Relies on argon2's `PasswordHasher::hash_password` with a fresh random
/// salt: whatever salt is drawn, the produced hash string parses and
/// matches the password it was derived from.
#[verifier::external_body]
pub fn hash_password(password: &str) -> (r: Result<String, PasswordError>)
    ensures
        r matches Ok(h) ==> hash_is_valid(h@) && password_matches(h@, password@),
{
    let salt = argon2::password_hash::SaltString::generate(
        &mut argon2::password_hash::rand_core::OsRng,
    );
    match argon2::Argon2::default().hash_password(password.as_bytes(), &salt) {
        Ok(h) => Ok(h.to_string()),
        Err(_) => Err(PasswordError::HashingFailed),
    }
}

// ---------------------------------------------------------------------------
// Verification
// ---------------------------------------------------------------------------
/// The complete outcome of a verification run, as a function of the user
/// list and the presented credentials.
pub open spec fn credential_check(
    entries: Seq<(Seq<char>, Seq<char>)>,
    username: Seq<char>,
    password: Seq<char>,
) -> Result<bool, PasswordError> {
    if entries.len() == 0 {
        Err(PasswordError::EmptyUserList)
    } else {
        let h = consulted_hash(entries, username);
        if !hash_is_valid(h) {
            Err(PasswordError::InvalidPasswordHash)
        } else {
            Ok(find_user(entries, username) is Some && password_matches(h, password))
        }
    }
}

/// Index of the first entry for `username`, if any.
#[verifier::loop_isolation(false)]
fn lookup_user(users: &UserDb, username: &str) -> (r: Option<usize>)
    ensures
        match r {
            Some(i) => i < users@.len() && find_user(users@, username@) == Some(
                users@[i as int].1,
            ),
            None => find_user(users@, username@) is None,
        },
{
    let n = users.entries.len();
    let mut i: usize = 0;
    proof {
        assert(users@.skip(0) =~= users@);
    }
    while i < n
        invariant
            n == users@.len(),
            i <= n,
            find_user(users@, username@) == find_user(users@.skip(i as int), username@),
        decreases n - i,
    {
        proof {
            assert(users@.skip(i as int)[0] == users@[i as int]);
            assert(users@.skip(i as int).drop_first() =~= users@.skip(i + 1));
        }
        if str_eq(users.entries[i].0.as_str(), username) {
            return Some(i);
        }
        i += 1;
    }
    proof {
        assert(users@.skip(users@.len() as int) =~= Seq::<(Seq<char>, Seq<char>)>::empty());
    }
    None
}

/// Verify a credential pair against the user list.
///
/// `Ok(true)` exactly when the username exists and the password matches its
/// stored hash; an unknown username still runs one full hash verification
/// (against the first entry) and yields `Ok(false)`. An empty list refuses
/// with `EmptyUserList`; an unusable consulted hash is the configuration
/// defect `InvalidPasswordHash`.
pub fn verify_password(users: &UserDb, username: &str, password: &str) -> (r: Result<
    bool,
    PasswordError,
>)
    ensures
        r == credential_check(users@, username@, password@),
{
    let n = users.entries.len();
    if n == 0 {
        return Err(PasswordError::EmptyUserList);
    }
    let found = lookup_user(users, username);
    let idx: usize = match found {
        Some(i) => i,
        None => 0,
    };
    proof {
        assert(consulted_hash(users@, username@) == users@[idx as int].1);
    }
    let hash = &users.entries[idx].1;
    match check_password_hash(hash.as_str(), password) {
        HashCheck::BadHash => Err(PasswordError::InvalidPasswordHash),
        HashCheck::Match => Ok(found.is_some()),
        HashCheck::Mismatch => Ok(false),
    }
}

} // verus!
