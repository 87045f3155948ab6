use vstd::prelude::*;

verus! {

use vstd::utf8::encode_utf8;
use crate::auth::UserDb;
use crate::router::ServiceConfig;

// ============================================================================
// Startup configuration.
//
// Command-line arguments and the configuration file are merged into a plan:
// which signing-key source to use, the absolute timeout, the bind address
// and the user list. Reading files and binding sockets stay outside; the
// decisions are made here, and the signing key file's text is decoded here
// (trailing whitespace stripped, then hex).
// ============================================================================
/// Arguments of the serve command.
pub struct ServeArgs {
    pub session_absolute_timeout_hours: Option<u64>,
    pub session_secret_key_file: Option<String>,
    pub address: Option<String>,
}

/// Arguments of the key-generation command.
pub struct GenKeyArgs {
    pub output: Option<String>,
}

/// The command asked for on the command line.
pub enum Command {
    GenKey(GenKeyArgs),
    Serve(ServeArgs),
}

/// The parsed command line: a command and an optional configuration file.
pub struct Args {
    pub command: Command,
    pub config: Option<String>,
}

/// One credential record of the configuration file.
pub struct User {
    pub username: String,
    pub password: String,
}

/// The configuration file's contents, every field optional.
pub struct Setting {
    pub session_absolute_timeout_hours: Option<u64>,
    pub session_secret_key_file: Option<String>,
    pub session_secret_key: Option<String>,
    pub address: Option<String>,
    pub users: Vec<User>,
}

/// Where the signing key comes from: a hex file, an inline setting, or
/// nowhere (startup must fail).
pub enum KeySource {
    FromFile(String),
    Inline(String),
    Missing,
}

/// The resolved serve plan.
pub struct ServePlan {
    pub session_absolute_timeout_hours: u64,
    pub key_source: KeySource,
    pub address: String,
    pub users: UserDb,
}

/// The default absolute session timeout, in hours.
pub open spec fn default_timeout_hours() -> u64 {
    720
}

/// The default bind address.
pub open spec fn default_address() -> Seq<char> {
    "127.0.0.1:8080"@
}

pub open spec fn opt_or_u64(a: Option<u64>, b: Option<u64>, default: u64) -> u64 {
    match a {
        Some(v) => v,
        None => match b {
            Some(v) => v,
            None => default,
        },
    }
}

/// Merge the serve arguments with the configuration file: arguments win,
/// then the file, then the defaults; a key file (from either source) wins
/// over an inline key.
pub fn serve_plan(args: ServeArgs, setting: Setting) -> (r: ServePlan)
    ensures
        r.session_absolute_timeout_hours == opt_or_u64(
            args.session_absolute_timeout_hours,
            setting.session_absolute_timeout_hours,
            default_timeout_hours(),
        ),
        (match (
            args.session_secret_key_file,
            setting.session_secret_key_file,
            setting.session_secret_key,
        ) {
            (Some(f), _, _) => r.key_source matches KeySource::FromFile(p) && p@ == f@,
            (None, Some(f), _) => r.key_source matches KeySource::FromFile(p) && p@ == f@,
            (None, None, Some(k)) => r.key_source matches KeySource::Inline(v) && v@ == k@,
            (None, None, None) => r.key_source is Missing,
        }),
        r.address@ == (match (args.address, setting.address) {
            (Some(a), _) => a@,
            (None, Some(a)) => a@,
            (None, None) => default_address(),
        }),
        r.users@.len() == setting.users@.len(),
        forall|i: int|
            0 <= i < setting.users@.len() ==> #[trigger] r.users@[i] == (
            setting.users@[i].username@,
            setting.users@[i].password@,
            ),
{
    let session_absolute_timeout_hours: u64 = match args.session_absolute_timeout_hours {
        Some(v) => v,
        None => match setting.session_absolute_timeout_hours {
            Some(v) => v,
            None => 720,
        },
    };
    let key_source: KeySource = match args.session_secret_key_file {
        Some(f) => KeySource::FromFile(f),
        None => match setting.session_secret_key_file {
            Some(f) => KeySource::FromFile(f),
            None => match setting.session_secret_key {
                Some(k) => KeySource::Inline(k),
                None => KeySource::Missing,
            },
        },
    };
    let address: String = match args.address {
        Some(a) => a,
        None => match setting.address {
            Some(a) => a,
            None => {
                let a = "127.0.0.1:8080";
                a.to_owned()
            },
        },
    };
    let mut entries: Vec<(String, String)> = Vec::new();
    let mut users = setting.users;
    let ghost users0 = users@;
    let n = users.len();
    let mut i: usize = 0;
    while i < n
        invariant
            n == users0.len(),
            users@ == users0.skip(i as int),
            i <= n,
            entries@.len() == i,
            forall|j: int|
                0 <= j < i ==> #[trigger] entries@[j].0@ == users0[j].username@ && entries@[j].1@
                    == users0[j].password@,
        decreases n - i,
    {
        let u = users.remove(0);
        entries.push((u.username, u.password));
        proof {
            assert(users0.skip(i as int)[0] == users0[i as int]);
            assert(users0.skip(i as int).skip(1) =~= users0.skip(i + 1));
        }
        i += 1;
    }
    let users_db = UserDb { entries };
    proof {
        assert forall|i2: int| 0 <= i2 < users0.len() implies #[trigger] users_db@[i2] == (
        users0[i2].username@,
        users0[i2].password@,
        ) by {}
    }
    ServePlan { session_absolute_timeout_hours, key_source, address, users: users_db }
}

/// Hours to seconds, saturating at the largest representable value.
pub fn hours_to_secs(hours: u64) -> (r: u64)
    ensures
        hours * 3600 <= u64::MAX ==> r == hours * 3600,
        hours * 3600 > u64::MAX ==> r == u64::MAX,
{
    if hours <= u64::MAX / 3600 {
        proof {
            assert((u64::MAX / 3600) * 3600 <= u64::MAX) by (nonlinear_arith);
            assert(hours <= u64::MAX / 3600 ==> hours * 3600 <= (u64::MAX / 3600) * 3600)
                by (nonlinear_arith);
        }
        hours * 3600
    } else {
        proof {
            assert(hours > u64::MAX / 3600 ==> hours * 3600 > u64::MAX) by (nonlinear_arith);
        }
        u64::MAX
    }
}

// ---------------------------------------------------------------------------
// Hex keys
// ---------------------------------------------------------------------------
/// Value of one hex digit, if it is one.
pub open spec fn hex_val(b: u8) -> Option<u8> {
    if 0x30 <= b <= 0x39 {
        Some((b - 0x30) as u8)
    } else if 0x61 <= b <= 0x66 {
        Some((b - 0x61 + 10) as u8)
    } else if 0x41 <= b <= 0x46 {
        Some((b - 0x41 + 10) as u8)
    } else {
        None
    }
}

/// Decode a hex string: two digits per byte, `None` on odd length or a
/// non-digit.
pub open spec fn hex_decode(s: Seq<u8>) -> Option<Seq<u8>>
    decreases s.len(),
{
    if s.len() == 0 {
        Some(Seq::empty())
    } else if s.len() == 1 {
        None
    } else {
        match (hex_val(s[0]), hex_val(s[1])) {
            (Some(hi), Some(lo)) => match hex_decode(s.skip(2)) {
                Some(rest) => Some(seq![(hi * 16 + lo) as u8] + rest),
                None => None,
            },
            _ => None,
        }
    }
}

/// Lower-case hex rendering of bytes, two digits each.
pub open spec fn hex_lower_of(b: Seq<u8>) -> Seq<u8>
    decreases b.len(),
{
    if b.len() == 0 {
        Seq::empty()
    } else {
        seq![hex_lower_digit(b[0] / 16), hex_lower_digit(b[0] % 16)] + hex_lower_of(b.drop_first())
    }
}

pub open spec fn hex_lower_digit(v: u8) -> u8
    recommends
        v < 16,
{
    if v < 10 {
        (0x30 + v) as u8
    } else {
        (0x57 + v) as u8
    }
}

/// ASCII whitespace stripped from the end of a key file's text.
pub open spec fn is_ascii_ws(b: u8) -> bool {
    b == 0x20 || b == 0x09 || b == 0x0a || b == 0x0d
}

pub open spec fn trim_trailing_ws(s: Seq<u8>) -> Seq<u8>
    decreases s.len(),
{
    if s.len() > 0 && is_ascii_ws(s.last()) {
        trim_trailing_ws(s.drop_last())
    } else {
        s
    }
}

/// What a key file's text decodes to.
pub open spec fn key_of_text(text: Seq<u8>) -> Option<Seq<u8>> {
    hex_decode(trim_trailing_ws(text))
}

fn hex_val_exec(b: u8) -> (r: Option<u8>)
    ensures
        r == hex_val(b),
{
    if 0x30 <= b && b <= 0x39 {
        Some(b - 0x30)
    } else if 0x61 <= b && b <= 0x66 {
        Some(b - 0x61 + 10)
    } else if 0x41 <= b && b <= 0x46 {
        Some(b - 0x41 + 10)
    } else {
        None
    }
}

/// Decode the text of a signing-key file: strip trailing whitespace, then
/// read hex.
#[verifier::loop_isolation(false)]
pub fn parse_key_text(text: &str) -> (r: Option<Vec<u8>>)
    ensures
        match r {
            Some(v) => key_of_text(encode_utf8(text@)) == Some(v@),
            None => key_of_text(encode_utf8(text@)) is None,
        },
{
    let b = text.as_bytes();
    let mut end: usize = b.len();
    proof {
        assert(b@.take(b@.len() as int) =~= b@);
    }
    while end > 0
        invariant
            end <= b@.len(),
            trim_trailing_ws(b@) == trim_trailing_ws(b@.take(end as int)),
        decreases end,
    {
        let c = b[end - 1];
        if !(c == 0x20 || c == 0x09 || c == 0x0a || c == 0x0d) {
            break ;
        }
        proof {
            assert(b@.take(end as int).last() == b@[end - 1]);
            assert(b@.take(end as int).drop_last() =~= b@.take(end - 1));
        }
        end -= 1;
    }
    proof {
        if end > 0 {
            assert(b@.take(end as int).last() == b@[end - 1]);
        } else {
            assert(b@.take(0) =~= Seq::<u8>::empty());
        }
        assert(trim_trailing_ws(b@) == b@.take(end as int));
    }
    let trimmed = vstd::slice::slice_subrange(b, 0, end);
    hex_decode_exec(trimmed)
}

/// Decode a hex string into bytes.
#[verifier::loop_isolation(false)]
fn hex_decode_exec(s: &[u8]) -> (r: Option<Vec<u8>>)
    ensures
        match r {
            Some(v) => hex_decode(s@) == Some(v@),
            None => hex_decode(s@) is None,
        },
{
    let n = s.len();
    if n % 2 != 0 {
        proof {
            lemma_hex_decode_odd(s@);
        }
        return None;
    }
    let mut out: Vec<u8> = Vec::new();
    let mut i: usize = 0;
    proof {
        assert(s@.skip(0) =~= s@);
        assert(hex_prefix_decodes(s@, 0, Seq::<u8>::empty()));
    }
    while i < n
        invariant
            i <= n,
            n == s@.len(),
            i % 2 == 0,
            n % 2 == 0,
            hex_prefix_decodes(s@, i as int, out@),
        decreases n - i,
    {
        let hi = match hex_val_exec(s[i]) {
            Some(v) => v,
            None => {
                proof {
                    assert(s@.skip(i as int)[0] == s@[i as int]);
                    assert(hex_decode(s@.skip(i as int)) is None);
                }
                return None;
            },
        };
        let lo = match hex_val_exec(s[i + 1]) {
            Some(v) => v,
            None => {
                proof {
                    assert(s@.skip(i as int)[0] == s@[i as int]);
                    assert(s@.skip(i as int)[1] == s@[i + 1]);
                    assert(hex_decode(s@.skip(i as int)) is None);
                }
                return None;
            },
        };
        let ghost pre = out@;
        out.push(hi * 16 + lo);
        proof {
            let tail = s@.skip(i as int);
            assert(tail[0] == s@[i as int]);
            assert(tail[1] == s@[i + 1]);
            assert(tail.skip(2) =~= s@.skip(i + 2));
            assert(out@ =~= pre + seq![(hi * 16 + lo) as u8]);
            assert(tail.len() >= 2);
            match hex_decode(s@.skip(i + 2)) {
                Some(rest2) => {
                    assert(hex_decode(tail) == Some(seq![(hi * 16 + lo) as u8] + rest2));
                    assert(pre + (seq![(hi * 16 + lo) as u8] + rest2) =~= out@ + rest2);
                },
                None => {
                    assert(hex_decode(tail) is None);
                },
            }
        }
        i += 2;
    }
    proof {
        assert(s@.skip(s@.len() as int) =~= Seq::<u8>::empty());
        assert(out@ + Seq::<u8>::empty() =~= out@);
    }
    Some(out)
}

/// `done` decodes the first `i` digits and the rest decides the outcome.
pub open spec fn hex_prefix_decodes(s: Seq<u8>, i: int, done: Seq<u8>) -> bool {
    match hex_decode(s.skip(i)) {
        Some(rest) => hex_decode(s) == Some(done + rest),
        None => hex_decode(s) is None,
    }
}

proof fn lemma_hex_decode_odd(s: Seq<u8>)
    requires
        s.len() % 2 == 1,
    ensures
        hex_decode(s) is None,
    decreases s.len(),
{
    if s.len() > 1 {
        lemma_hex_decode_odd(s.skip(2));
    }
}

/// Render bytes as lower-case hex.
#[verifier::loop_isolation(false)]
pub fn encode_hex(b: &[u8]) -> (r: Option<String>)
    ensures
        match r {
            Some(s) => encode_utf8(s@) == hex_lower_of(b@),
            None => false,
        },
{
    let mut out: Vec<u8> = Vec::new();
    let mut i: usize = 0;
    proof {
        assert(b@.skip(0) =~= b@);
        assert(Seq::<u8>::empty() + hex_lower_of(b@) =~= hex_lower_of(b@));
    }
    while i < b.len()
        invariant
            i <= b@.len(),
            hex_lower_of(b@) == out@ + hex_lower_of(b@.skip(i as int)),
        decreases b@.len() - i,
    {
        let ghost pre = out@;
        let v = b[i];
        let hi = v / 16;
        let lo = v % 16;
        out.push(if hi < 10 {
            0x30 + hi
        } else {
            0x57 + hi
        });
        out.push(if lo < 10 {
            0x30 + lo
        } else {
            0x57 + lo
        });
        proof {
            assert(b@.skip(i as int)[0] == b@[i as int]);
            assert(b@.skip(i as int).drop_first() =~= b@.skip(i + 1));
            assert(out@ =~= pre + seq![hex_lower_digit(v / 16), hex_lower_digit(v % 16)]);
        }
        i += 1;
    }
    proof {
        assert(b@.skip(b@.len() as int) =~= Seq::<u8>::empty());
        assert(out@ + hex_lower_of(b@.skip(b@.len() as int)) =~= out@);
        lemma_hex_lower_ascii(b@);
        crate::redirection::lemma_ascii_valid_utf8(out@);
    }
    crate::text::string_from_utf8(out)
}

proof fn lemma_hex_lower_ascii(b: Seq<u8>)
    ensures
        crate::redirection::all_ascii(hex_lower_of(b)),
    decreases b.len(),
{
    if b.len() > 0 {
        lemma_hex_lower_ascii(b.drop_first());
    }
}

/// A signing key is usable when it has at least the required length.
pub fn check_key(key: &Vec<u8>) -> (r: bool)
    ensures
        r == (key@.len() >= 64),
{
    key.len() >= 64
}

/// The configuration shape of the older application surface: the same
/// fields as `ServiceConfig`.
pub struct AppConfig {
    pub session_absolute_timeout: u64,
    pub session_secret_key: Vec<u8>,
    pub users: UserDb,
}

impl AppConfig {
    /// The older surface delegates to the service configuration unchanged.
    pub fn into_service(self) -> (r: ServiceConfig)
        ensures
            r.session_absolute_timeout == self.session_absolute_timeout,
            r.session_secret_key@ == self.session_secret_key@,
            r.users@ == self.users@,
    {
        ServiceConfig {
            session_absolute_timeout: self.session_absolute_timeout,
            session_secret_key: self.session_secret_key,
            users: self.users,
        }
    }
}

} // verus!
