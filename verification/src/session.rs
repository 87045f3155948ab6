use vstd::prelude::*;

verus! {

use vstd::arithmetic::div_mod::lemma_fundamental_div_mod;
use vstd::utf8::valid_utf8;
use vstd::utf8::encode_utf8;
use vstd::utf8::decode_utf8;
use vstd::utf8::encode_utf8_valid_utf8;
use vstd::utf8::encode_utf8_decode_utf8;
use crate::redirection::find_byte;
use crate::redirection::lemma_find_byte;
use crate::redirection::find_byte_from;
use crate::text::push_all;
use crate::text::string_from_utf8;

// ============================================================================
// Sessions.
//
// A session is the pair (subject, issued_at) and lives only inside a signed
// cookie value: the payload is the issue time in decimal, a `:`, then the
// subject, and the whole payload carries a keyed integrity tag (the cookie
// crate's HMAC signing). Deserialisation verifies the tag first; any
// tampering or malformed payload collapses to `None`, never to an error a
// client could tell apart.
// ============================================================================
/// A stateless session record: who signed in, and when (Unix seconds).
pub struct Session {
    pub subject: String,
    pub issued_at: u64,
}

/// Parameters for expiry validation: the current time and the absolute
/// timeout, both in seconds.
pub struct ValidationOptions {
    pub now: u64,
    pub absolute_timeout: u64,
}

/// A session is valid iff its absolute expiry has not passed:
/// `issued_at + absolute_timeout >= now` (inclusive boundary).
pub open spec fn session_is_valid(issued_at: u64, absolute_timeout: u64, now: u64) -> bool {
    issued_at + absolute_timeout >= now
}

// ---------------------------------------------------------------------------
// Decimal rendering of the issue time
// ---------------------------------------------------------------------------
/// Decimal digits (ASCII) of `n`, most significant first.
pub open spec fn dec_of(n: nat) -> Seq<u8>
    decreases n,
{
    if n < 10 {
        seq![(0x30 + n) as u8]
    } else {
        dec_of(n / 10).push((0x30 + n % 10) as u8)
    }
}

/// Value of a digit string.
pub open spec fn dec_val(s: Seq<u8>) -> nat
    decreases s.len(),
{
    if s.len() == 0 {
        0
    } else {
        dec_val(s.drop_last()) * 10 + (if 0x30 <= s.last() <= 0x39 {
            (s.last() - 0x30) as nat
        } else {
            0
        })
    }
}

pub open spec fn all_digits(s: Seq<u8>) -> bool {
    forall|j: int| 0 <= j < s.len() ==> 0x30 <= #[trigger] s[j] <= 0x39
}

pub proof fn lemma_dec_of_digits(n: nat)
    ensures
        dec_of(n).len() >= 1,
        all_digits(dec_of(n)),
        dec_val(dec_of(n)) == n,
    decreases n,
{
    if n < 10 {
        let d = dec_of(n);
        assert(d.len() == 1);
        assert(d.last() == (0x30 + n) as u8);
        assert(d.drop_last() =~= Seq::<u8>::empty());
        assert(dec_val(d.drop_last()) == 0);
        assert(dec_val(d) == n);
    } else {
        lemma_dec_of_digits(n / 10);
        let d = dec_of(n / 10);
        let full = dec_of(n);
        assert(full == d.push((0x30 + n % 10) as u8));
        assert(full.drop_last() =~= d);
        assert(full.last() == (0x30 + n % 10) as u8);
        assert forall|j: int| 0 <= j < full.len() implies 0x30 <= #[trigger] full[j] <= 0x39 by {
            if j < d.len() {
                assert(full[j] == d[j]);
            }
        }
        lemma_fundamental_div_mod(n as int, 10);
    }
}

/// A longer digit prefix never has a smaller value.
pub proof fn lemma_dec_val_monotone(s: Seq<u8>, i: int)
    requires
        0 <= i <= s.len(),
    ensures
        dec_val(s) >= dec_val(s.take(i)),
    decreases s.len() - i,
{
    if i < s.len() {
        lemma_dec_val_monotone(s, i + 1);
        let t = s.take(i + 1);
        assert(t.drop_last() =~= s.take(i));
        assert(dec_val(t) == dec_val(s.take(i)) * 10 + (if 0x30 <= t.last() <= 0x39 {
            (t.last() - 0x30) as nat
        } else {
            0
        }));
    } else {
        assert(s.take(i) =~= s);
    }
}

/// Render `n` in decimal.
pub fn u64_to_dec(n: u64) -> (r: Vec<u8>)
    ensures
        r@ == dec_of(n as nat),
    decreases n,
{
    if n < 10 {
        let mut r: Vec<u8> = Vec::new();
        r.push(0x30 + (n as u8));
        proof {
            assert(r@ =~= dec_of(n as nat));
        }
        r
    } else {
        let mut r = u64_to_dec(n / 10);
        r.push(0x30 + ((n % 10) as u8));
        r
    }
}

/// Parse a decimal digit string; `None` when empty, non-digit, or over
/// `u64::MAX`.
#[verifier::loop_isolation(false)]
pub fn parse_dec(s: &[u8]) -> (r: Option<u64>)
    ensures
        match r {
            Some(v) => s@.len() >= 1 && all_digits(s@) && dec_val(s@) == v as nat,
            None => s@.len() == 0 || !all_digits(s@) || dec_val(s@) > u64::MAX,
        },
{
    if s.len() == 0 {
        return None;
    }
    let mut acc: u64 = 0;
    let mut i: usize = 0;
    proof {
        assert(s@.take(0) =~= Seq::<u8>::empty());
    }
    while i < s.len()
        invariant
            i <= s@.len(),
            all_digits(s@.take(i as int)),
            acc as nat == dec_val(s@.take(i as int)),
        decreases s@.len() - i,
    {
        let b = s[i];
        proof {
            assert(s@.take(i + 1).drop_last() =~= s@.take(i as int));
            assert(s@.take(i + 1).last() == s@[i as int]);
        }
        if b < 0x30 || b > 0x39 {
            proof {
                assert(!all_digits(s@));
            }
            return None;
        }
        let d = b - 0x30;
        if acc > (u64::MAX - (d as u64)) / 10 {
            proof {
                assert(dec_val(s@.take(i + 1)) == acc as nat * 10 + d as nat);
                assert(acc as nat * 10 + d as nat > u64::MAX) by {
                    assert(acc as nat >= ((u64::MAX - (d as u64)) / 10) as nat + 1);
                    assert((((u64::MAX - (d as u64)) / 10) as nat + 1) * 10 >= u64::MAX - d + 1)
                        by (nonlinear_arith);
                };
                lemma_dec_val_monotone(s@, i + 1);
            }
            return None;
        }
        acc = acc * 10 + (d as u64);
        proof {
            assert forall|j: int| 0 <= j < i + 1 implies 0x30 <= #[trigger] s@.take(i + 1)[j]
                <= 0x39 by {
                if j < i {
                    assert(s@.take(i + 1)[j] == s@.take(i as int)[j]);
                }
            }
        }
        i += 1;
    }
    proof {
        assert(s@.take(s@.len() as int) =~= s@);
    }
    Some(acc)
}

// ---------------------------------------------------------------------------
// Payload framing: `<issued_at>:<subject>`
// ---------------------------------------------------------------------------
pub open spec fn payload_bytes(subject: Seq<char>, issued_at: u64) -> Seq<u8> {
    dec_of(issued_at as nat) + seq![0x3au8] + encode_utf8(subject)
}

/// Parse a payload back into (subject, issued_at): digits up to the first
/// `:`, then the subject.
pub open spec fn parse_payload(b: Seq<u8>) -> Option<(Seq<char>, u64)> {
    match find_byte(b, 0x3a) {
        None => None,
        Some(i) => {
            let digits = b.take(i);
            let rest = b.skip(i + 1);
            if digits.len() >= 1 && all_digits(digits) && dec_val(digits) <= u64::MAX
                && valid_utf8(rest) {
                Some((decode_utf8(rest), dec_val(digits) as u64))
            } else {
                None
            }
        },
    }
}

/// Framing and parsing invert each other, for every subject and issue time.
pub proof fn lemma_payload_round_trip(subject: Seq<char>, issued_at: u64)
    ensures
        parse_payload(payload_bytes(subject, issued_at)) == Some((subject, issued_at)),
{
    broadcast use encode_utf8_valid_utf8;
    broadcast use encode_utf8_decode_utf8;

    let p = payload_bytes(subject, issued_at);
    let d = dec_of(issued_at as nat);
    lemma_dec_of_digits(issued_at as nat);
    let l = d.len() as int;
    assert(p[l] == 0x3a);
    assert forall|j: int| 0 <= j < l implies #[trigger] p[j] != 0x3a by {
        assert(p[j] == d[j]);
        assert(0x30 <= d[j] <= 0x39);
    }
    lemma_find_byte(p, 0x3a);
    match find_byte(p, 0x3a) {
        None => {
            assert(false);
        },
        Some(i) => {
            if i < l {
                assert(p[i] != 0x3a);
            }
            if i > l {
                assert(p[l] != 0x3a);
            }
            assert(i == l);
            assert(p.take(l) =~= d);
            assert(p.skip(l + 1) =~= encode_utf8(subject));
        },
    }
}

/// Encode the payload of this session.
fn encode_payload(session: &Session) -> (r: Vec<u8>)
    ensures
        r@ == payload_bytes(session.subject@, session.issued_at),
{
    let mut r = u64_to_dec(session.issued_at);
    r.push(0x3a);
    push_all(&mut r, session.subject.as_str().as_bytes());
    proof {
        assert(r@ =~= payload_bytes(session.subject@, session.issued_at));
    }
    r
}

/// Parse a payload into a session.
fn decode_payload(p: &str) -> (r: Option<Session>)
    ensures
        match r {
            Some(sess) => parse_payload(encode_utf8(p@)) == Some((sess.subject@, sess.issued_at)),
            None => parse_payload(encode_utf8(p@)) is None,
        },
{
    broadcast use encode_utf8_valid_utf8;

    let b = p.as_bytes();
    let blen: usize = b.len();
    proof {
        assert(b@.skip(0) =~= b@);
    }
    let i = match find_byte_from(b, 0, 0x3a) {
        Some(i) => i,
        None => {
            return None;
        },
    };
    let digits = vstd::slice::slice_subrange(b, 0, i);
    proof {
        assert(digits@ =~= b@.take(i as int));
    }
    let issued_at = match parse_dec(digits) {
        Some(v) => v,
        None => {
            return None;
        },
    };
    let rest = vstd::slice::slice_subrange(b, i + 1, blen);
    proof {
        assert(rest@ =~= b@.skip(i + 1));
    }
    let subject = match string_from_utf8(vstd::slice::slice_to_vec(rest)) {
        Some(s) => s,
        None => {
            return None;
        },
    };
    proof {
        encode_utf8_decode_utf8(subject@);
    }
    Some(Session { subject, issued_at })
}

// ---------------------------------------------------------------------------
// Keyed integrity signing of the payload
// ---------------------------------------------------------------------------
/// What the cookie crate's signed jar turns a value into under a key.
pub uninterp spec fn sign_of(key: Seq<u8>, value: Seq<char>) -> Seq<char>;

/// What the cookie crate's signed jar gives back for a signed value under a
/// key: the embedded value when the integrity tag checks out, nothing
/// otherwise.
pub uninterp spec fn unsign_of(key: Seq<u8>, signed: Seq<char>) -> Option<Seq<char>>;

/// Relies on cookie's `SignedJar::add` (HMAC-SHA256 over the value, tag
/// prepended in base64): signing is a function of key and value alone, and a
/// value signed under a key always verifies back to itself under that key.
#[verifier::external_body]
fn sign_value(key: &Vec<u8>, value: &str) -> (r: String)
    requires
        key@.len() >= 64,
    ensures
        r@ == sign_of(key@, value@),
        unsign_of(key@, r@) == Some(value@),
{
    let k = cookie::Key::try_from(&key[..]).expect("key length checked by caller");
    let mut jar = cookie::CookieJar::new();
    jar.signed_mut(&k).add(cookie::Cookie::new("session", value.to_string()));
    match jar.get("session") {
        Some(c) => c.value().to_string(),
        None => String::new(),
    }
}

/// Relies on cookie's `SignedJar::verify`: returns the embedded value only
/// when the integrity tag checks out under the same key; deterministic in
/// key and signed value.
#[verifier::external_body]
fn unsign_value(key: &Vec<u8>, signed: &str) -> (r: Option<String>)
    requires
        key@.len() >= 64,
    ensures
        match r {
            Some(v) => unsign_of(key@, signed@) == Some(v@),
            None => unsign_of(key@, signed@) is None,
        },
{
    let k = cookie::Key::try_from(&key[..]).expect("key length checked by caller");
    let jar = cookie::CookieJar::new();
    jar.signed(&k).verify(cookie::Cookie::new("session", signed.to_string())).map(
        |c| c.value().to_string(),
    )
}

/// The characters of a session's payload.
pub open spec fn payload_chars(subject: Seq<char>, issued_at: u64) -> Seq<char> {
    decode_utf8(payload_bytes(subject, issued_at))
}

/// What deserialising a cookie value under a key yields: verify the
/// integrity tag, then parse the payload; every failure is `None`.
pub open spec fn from_cookie_spec(key: Seq<u8>, value: Seq<char>) -> Option<(Seq<char>, u64)> {
    match unsign_of(key, value) {
        None => None,
        Some(p) => parse_payload(encode_utf8(p)),
    }
}

proof fn lemma_payload_bytes_valid(subject: Seq<char>, issued_at: u64)
    ensures
        valid_utf8(payload_bytes(subject, issued_at)),
        encode_utf8(payload_chars(subject, issued_at)) == payload_bytes(subject, issued_at),
{
    broadcast use encode_utf8_valid_utf8;
    broadcast use vstd::utf8::valid_utf8_concat;

    let d = dec_of(issued_at as nat);
    lemma_dec_of_digits(issued_at as nat);
    crate::redirection::lemma_ascii_valid_utf8(d + seq![0x3au8]);
    assert(valid_utf8((d + seq![0x3au8]) + encode_utf8(subject)));
    assert((d + seq![0x3au8]) + encode_utf8(subject) =~= payload_bytes(subject, issued_at));
    vstd::utf8::decode_utf8_encode_utf8(payload_bytes(subject, issued_at));
}

impl Session {
    pub fn is_valid(&self, options: ValidationOptions) -> (r: bool)
        ensures
            r == session_is_valid(self.issued_at, options.absolute_timeout, options.now),
    {
        self.issued_at as u128 + options.absolute_timeout as u128 >= options.now as u128
    }

    /// Serialise and sign this session into a cookie value.
    ///
    /// The second clause is the round-trip law: a value this function
    /// produces always deserialises, under the same key, back to exactly
    /// this session.
    pub fn to_cookie(&self, key: &Vec<u8>) -> (r: String)
        requires
            key@.len() >= 64,
        ensures
            r@ == sign_of(key@, payload_chars(self.subject@, self.issued_at)),
            from_cookie_spec(key@, r@) == Some((self.subject@, self.issued_at)),
    {
        let payload = encode_payload(self);
        proof {
            lemma_payload_bytes_valid(self.subject@, self.issued_at);
        }
        let payload_str = match string_from_utf8(payload) {
            Some(s) => s,
            None => {
                proof {
                    assert(false);
                }
                String::new()
            },
        };
        let r = sign_value(key, payload_str.as_str());
        proof {
            vstd::utf8::decode_utf8_encode_utf8(encode_utf8(payload_str@));
            encode_utf8_decode_utf8(payload_str@);
            assert(payload_str@ == payload_chars(self.subject@, self.issued_at));
            lemma_payload_round_trip(self.subject@, self.issued_at);
        }
        r
    }

    /// Verify and deserialise a cookie value; any tampering, wrong key or
    /// malformed payload yields `None`.
    pub fn from_cookie(value: &str, key: &Vec<u8>) -> (r: Option<Session>)
        requires
            key@.len() >= 64,
        ensures
            match r {
                Some(sess) => from_cookie_spec(key@, value@) == Some(
                    (sess.subject@, sess.issued_at),
                ),
                None => from_cookie_spec(key@, value@) is None,
            },
    {
        let p = match unsign_value(key, value) {
            Some(p) => p,
            None => {
                return None;
            },
        };
        decode_payload(p.as_str())
    }
}

} // verus!
