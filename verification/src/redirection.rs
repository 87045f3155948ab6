use vstd::prelude::*;

verus! {

use vstd::slice::slice_subrange;
use vstd::slice::slice_to_vec;

// ============================================================================
// Redirect-target resolution.
//
// A redirect target taken from a request is resolved against the request's
// own path using relative-reference resolution against a fixed synthetic
// authority (`http://localhost`), following the WHATWG URL rules for special
// schemes: backslashes separate path segments, `.`/`..` segments (and their
// `%2e` spellings) are collapsed, and bytes outside the allowed sets are
// percent-encoded. A target that resolves to anything but a path under the
// synthetic authority is rejected: the caller gets `None` and must refuse
// the redirect. As an extra guard, a resolved path that begins with `//`
// (which a browser would read as a protocol-relative reference) is rejected
// rather than returned.
//
// Everything here is defined over byte sequences; the executable functions
// are proved to return exactly what the specification functions describe.
// ============================================================================
// ---------------------------------------------------------------------------
// Byte classes
// ---------------------------------------------------------------------------
pub open spec fn is_alpha(b: u8) -> bool {
    (0x41 <= b <= 0x5a) || (0x61 <= b <= 0x7a)
}

pub open spec fn is_digit(b: u8) -> bool {
    0x30 <= b <= 0x39
}

/// Bytes allowed in a URL scheme after the first (which must be alphabetic):
/// alphanumerics and `+`, `-`, `.`.
pub open spec fn is_scheme_byte(b: u8) -> bool {
    is_alpha(b) || is_digit(b) || b == 0x2b || b == 0x2d || b == 0x2e
}

/// ASCII lower-casing of a single byte.
pub open spec fn lower_byte(b: u8) -> u8 {
    if 0x41 <= b <= 0x5a {
        (b + 0x20) as u8
    } else {
        b
    }
}

/// Bytes percent-encoded inside a path segment: C0 controls, DEL and
/// non-ASCII, and space, `"`, `#`, `<`, `>`, `?`, backtick, `{`, `}`.
pub open spec fn path_encode_byte(b: u8) -> bool {
    b < 0x20 || b >= 0x7f || b == 0x20 || b == 0x22 || b == 0x23 || b == 0x3c || b == 0x3e
        || b == 0x3f || b == 0x60 || b == 0x7b || b == 0x7d
}

/// Bytes percent-encoded inside a query: C0 controls, DEL and non-ASCII,
/// and space, `"`, `#`, `<`, `>`, `'`.
pub open spec fn query_encode_byte(b: u8) -> bool {
    b < 0x20 || b >= 0x7f || b == 0x20 || b == 0x22 || b == 0x23 || b == 0x3c || b == 0x3e
        || b == 0x27
}

/// Bytes percent-encoded inside a fragment: C0 controls, DEL and non-ASCII,
/// and space, `"`, `<`, `>`, backtick.
pub open spec fn frag_encode_byte(b: u8) -> bool {
    b < 0x20 || b >= 0x7f || b == 0x20 || b == 0x22 || b == 0x3c || b == 0x3e || b == 0x60
}

/// Bytes a form-urlencoded pair keeps unchanged: alphanumerics and
/// `*`, `-`, `.`, `_`.
pub open spec fn form_unchanged_byte(b: u8) -> bool {
    is_alpha(b) || is_digit(b) || b == 0x2a || b == 0x2d || b == 0x2e || b == 0x5f
}

/// Upper-case hex digit for a value below 16.
pub open spec fn hex_digit(v: u8) -> u8
    recommends
        v < 16,
{
    if v < 10 {
        (0x30 + v) as u8
    } else {
        (0x37 + v) as u8
    }
}

/// `%XY` expansion of one byte, upper-case hex.
pub open spec fn pct_expand(b: u8) -> Seq<u8> {
    seq![0x25u8, hex_digit(b / 16), hex_digit(b % 16)]
}

/// Percent-encode a byte sequence, expanding exactly the bytes that `enc`
/// selects.
pub open spec fn pct_encode(s: Seq<u8>, enc: spec_fn(u8) -> bool) -> Seq<u8>
    decreases s.len(),
{
    if s.len() == 0 {
        Seq::empty()
    } else {
        (if enc(s[0]) {
            pct_expand(s[0])
        } else {
            seq![s[0]]
        }) + pct_encode(s.drop_first(), enc)
    }
}

/// Form-urlencoding of one key or value: kept bytes unchanged, space as `+`,
/// everything else percent-expanded.
pub open spec fn form_encode(s: Seq<u8>) -> Seq<u8>
    decreases s.len(),
{
    if s.len() == 0 {
        Seq::empty()
    } else {
        (if form_unchanged_byte(s[0]) {
            seq![s[0]]
        } else if s[0] == 0x20 {
            seq![0x2bu8]
        } else {
            pct_expand(s[0])
        }) + form_encode(s.drop_first())
    }
}

// ---------------------------------------------------------------------------
// Splitting a reference into path, query and fragment
// ---------------------------------------------------------------------------
/// Index of the first occurrence of `b`, if any.
pub open spec fn find_byte(s: Seq<u8>, b: u8) -> Option<int>
    decreases s.len(),
{
    if s.len() == 0 {
        None
    } else if s[0] == b {
        Some(0)
    } else {
        match find_byte(s.drop_first(), b) {
            Some(i) => Some(i + 1),
            None => None,
        }
    }
}

/// Part of `s` before the first `b`, or all of `s`.
pub open spec fn before_byte(s: Seq<u8>, b: u8) -> Seq<u8> {
    match find_byte(s, b) {
        Some(i) => s.take(i),
        None => s,
    }
}

/// Part of `s` after the first `b`: `Some(rest)` if `b` occurs, else `None`.
pub open spec fn after_byte(s: Seq<u8>, b: u8) -> Option<Seq<u8>> {
    match find_byte(s, b) {
        Some(i) => Some(s.skip(i + 1)),
        None => None,
    }
}

// ---------------------------------------------------------------------------
// Scheme handling
// ---------------------------------------------------------------------------
/// Length of a leading URL scheme in `s` (the position of its `:`), if the
/// bytes up to the first `:` form a syntactically valid scheme that ends
/// before any `/`, `\`, `?` or `#`.
pub open spec fn scheme_len(s: Seq<u8>) -> Option<int> {
    if s.len() > 0 && is_alpha(s[0]) {
        match find_byte(s, 0x3a) {
            Some(i) => if (forall|j: int| 1 <= j < i ==> is_scheme_byte(#[trigger] s[j])) && (
            forall|j: int|
                0 <= j < i ==> #[trigger] s[j] != 0x2f && s[j] != 0x5c && s[j] != 0x3f && s[j]
                    != 0x23) {
                Some(i)
            } else {
                None
            },
            None => None,
        }
    } else {
        None
    }
}

/// The scheme bytes spell `http`, compared case-insensitively.
pub open spec fn is_http_scheme(s: Seq<u8>) -> bool {
    s.len() == 4 && lower_byte(s[0]) == 0x68 && lower_byte(s[1]) == 0x74 && lower_byte(s[2])
        == 0x74 && lower_byte(s[3]) == 0x70
}

// ---------------------------------------------------------------------------
// Authority and path machinery
// ---------------------------------------------------------------------------
/// Both `/` and `\` separate path segments under the special-scheme rules.
pub open spec fn is_slash(b: u8) -> bool {
    b == 0x2f || b == 0x5c
}

/// Number of leading slash-class bytes.
pub open spec fn count_leading_slashes(s: Seq<u8>) -> int
    decreases s.len(),
{
    if s.len() > 0 && is_slash(s[0]) {
        1 + count_leading_slashes(s.drop_first())
    } else {
        0
    }
}

/// Index of the first slash-class byte, or the length if there is none.
pub open spec fn until_slash(s: Seq<u8>) -> int
    decreases s.len(),
{
    if s.len() == 0 {
        0
    } else if is_slash(s[0]) {
        0
    } else {
        1 + until_slash(s.drop_first())
    }
}

/// The bytes of `localhost`.
pub open spec fn localhost_bytes() -> Seq<u8> {
    seq![0x6cu8, 0x6f, 0x63, 0x61, 0x6c, 0x68, 0x6f, 0x73, 0x74]
}

/// The synthetic authority accepted as same-origin: `localhost`, optionally
/// with the default port, compared case-insensitively.
pub open spec fn is_local_authority(s: Seq<u8>) -> bool {
    s.map_values(|b: u8| lower_byte(b)) == localhost_bytes() || s.map_values(
        |b: u8| lower_byte(b),
    ) == localhost_bytes() + seq![0x3au8, 0x38, 0x30]
}

/// Split a path with its single leading slash already stripped into its
/// segments, at every `/`.
pub open spec fn split_segments(s: Seq<u8>) -> Seq<Seq<u8>>
    decreases s.len(),
{
    match find_byte(s, 0x2f) {
        Some(i) => if 0 <= i < s.len() {
            seq![s.take(i)] + split_segments(s.skip(i + 1))
        } else {
            seq![s]
        },
        None => seq![s],
    }
}

/// A segment that reads as a single dot: `.` or `%2e` in either case.
pub open spec fn is_dot1(s: Seq<u8>) -> bool {
    s == seq![0x2eu8] || (s.len() == 3 && s[0] == 0x25 && s[1] == 0x32 && lower_byte(s[2]) == 0x65)
}

/// A segment that reads as a double dot: two single-dot spellings in a row.
pub open spec fn is_dot2(s: Seq<u8>) -> bool {
    (s.len() == 2 && is_dot1(s.take(1)) && is_dot1(s.skip(1))) || (s.len() == 4 && ((is_dot1(
        s.take(1),
    ) && is_dot1(s.skip(1))) || (is_dot1(s.take(3)) && is_dot1(s.skip(3))))) || (s.len() == 6
        && is_dot1(s.take(3)) && is_dot1(s.skip(3)))
}

/// Dot-segment removal over percent-encoded segments, following the special
/// URL path rules: a double dot pops the previous segment, a single dot is
/// dropped, and a dot segment in final position keeps the directory form by
/// appending an empty segment.
pub open spec fn remove_dots(acc: Seq<Seq<u8>>, rest: Seq<Seq<u8>>) -> Seq<Seq<u8>>
    decreases rest.len(),
{
    if rest.len() == 0 {
        acc
    } else {
        let seg = rest[0];
        if is_dot2(seg) {
            let popped = if acc.len() > 0 {
                acc.drop_last()
            } else {
                acc
            };
            if rest.len() == 1 {
                popped.push(Seq::empty())
            } else {
                remove_dots(popped, rest.drop_first())
            }
        } else if is_dot1(seg) {
            if rest.len() == 1 {
                acc.push(Seq::empty())
            } else {
                remove_dots(acc, rest.drop_first())
            }
        } else {
            remove_dots(acc.push(seg), rest.drop_first())
        }
    }
}

/// Serialise segments back into an absolute path: `/seg0/seg1/...`; no
/// segments means the root path.
pub open spec fn join_segments(segs: Seq<Seq<u8>>) -> Seq<u8>
    decreases segs.len(),
{
    if segs.len() == 0 {
        seq![0x2fu8]
    } else {
        seq![0x2fu8] + segs[0] + if segs.len() == 1 {
            Seq::empty()
        } else {
            join_segments(segs.drop_first())
        }
    }
}

/// Replace backslashes by slashes, as the special-scheme path rules do.
pub open spec fn unify_slashes(s: Seq<u8>) -> Seq<u8> {
    s.map_values(|b: u8| if b == 0x5c {
        0x2fu8
    } else {
        b
    })
}

/// Resolve an absolute-path reference `p` (which begins with a slash-class
/// byte): normalise backslashes, split into segments, percent-encode each,
/// collapse dot segments, and reserialise.
pub open spec fn resolve_abs_path(p: Seq<u8>) -> Seq<u8> {
    let segs = split_segments(unify_slashes(p).skip(1));
    let cleaned = remove_dots(
        Seq::empty(),
        segs.map_values(|seg: Seq<u8>| pct_encode(seg, |b: u8| path_encode_byte(b))),
    );
    join_segments(cleaned)
}

/// Index just past the last `/` of `s`, or 0 if `s` has none.
pub open spec fn cut_after_last_slash(s: Seq<u8>) -> int
    decreases s.len(),
{
    if s.len() == 0 {
        0
    } else if s.last() == 0x2f {
        s.len() as int
    } else {
        cut_after_last_slash(s.drop_last())
    }
}

/// Merge a relative path into a base path: the base path up to and including
/// its last `/`, then the reference.
pub open spec fn merge_paths(base: Seq<u8>, rel: Seq<u8>) -> Seq<u8> {
    base.take(cut_after_last_slash(base)) + rel
}

/// A resolved path is refused when it opens with `//`: a browser would treat
/// such a redirect as protocol-relative and leave the origin.
pub open spec fn double_slash_prefix(p: Seq<u8>) -> bool {
    p.len() >= 2 && p[0] == 0x2f && p[1] == 0x2f
}

// ---------------------------------------------------------------------------
// Reference resolution
// ---------------------------------------------------------------------------
/// Resolve one reference `t` against a base whose canonical absolute path is
/// `bpath` and whose (already encoded) query is `bquery`. Yields the resolved
/// path, query and fragment, or `None` when the reference leaves the
/// synthetic origin or is malformed.
pub open spec fn resolve_ref(bpath: Seq<u8>, bquery: Option<Seq<u8>>, t: Seq<u8>) -> Option<
    (Seq<u8>, Option<Seq<u8>>, Option<Seq<u8>>),
> {
    let t1 = match scheme_len(t) {
        Some(i) => if is_http_scheme(t.take(i)) {
            Some(t.skip(i + 1))
        } else {
            None
        },
        None => Some(t),
    };
    match t1 {
        None => None,
        Some(r) => {
            let body = before_byte(r, 0x23);
            let frag = match after_byte(r, 0x23) {
                Some(f) => Some(pct_encode(f, |b: u8| frag_encode_byte(b))),
                None => None,
            };
            let pathpart = before_byte(body, 0x3f);
            let query = match after_byte(body, 0x3f) {
                Some(q) => Some(pct_encode(q, |b: u8| query_encode_byte(b))),
                None => None,
            };
            let n = count_leading_slashes(pathpart);
            if n >= 2 {
                // network-path reference: an explicit authority follows
                let rest = pathpart.skip(n);
                let auth = rest.take(until_slash(rest));
                let tail = rest.skip(until_slash(rest));
                if !is_local_authority(auth) {
                    None
                } else {
                    let path = if tail.len() == 0 {
                        seq![0x2fu8]
                    } else {
                        resolve_abs_path(tail)
                    };
                    if double_slash_prefix(path) {
                        None
                    } else {
                        Some((path, query, frag))
                    }
                }
            } else if n == 1 {
                let path = resolve_abs_path(pathpart);
                if double_slash_prefix(path) {
                    None
                } else {
                    Some((path, query, frag))
                }
            } else if pathpart.len() == 0 {
                if query is Some {
                    Some((bpath, query, frag))
                } else {
                    Some((bpath, bquery, frag))
                }
            } else {
                let path = resolve_abs_path(merge_paths(bpath, pathpart));
                if double_slash_prefix(path) {
                    None
                } else {
                    Some((path, query, frag))
                }
            }
        },
    }
}

/// Reassemble a resolved (path, query, fragment) triple into one target.
pub open spec fn assemble_target(p: Seq<u8>, q: Option<Seq<u8>>, f: Option<Seq<u8>>) -> Seq<u8> {
    p + (match q {
        Some(qv) => seq![0x3fu8] + qv,
        None => Seq::empty(),
    }) + (match f {
        Some(fv) => seq![0x23u8] + fv,
        None => Seq::empty(),
    })
}

/// The canonical root path.
pub open spec fn root_path() -> Seq<u8> {
    seq![0x2fu8]
}

/// Full normalisation: resolve `base` against the synthetic origin's root,
/// then resolve `target` against that, and reassemble. `None` means the
/// target (or the base itself) cannot be shown to stay on the origin.
pub open spec fn normalize_spec(base: Seq<u8>, target: Seq<u8>) -> Option<Seq<u8>> {
    match resolve_ref(root_path(), None, base) {
        None => None,
        Some((bp, bq, _)) => match resolve_ref(bp, bq, target) {
            None => None,
            Some((p, q, f)) => Some(assemble_target(p, q, f)),
        },
    }
}

/// Appending one form-urlencoded pair to a resolved path: the new pair goes
/// after any existing query and before any fragment.
pub open spec fn add_query_spec(path: Seq<u8>, key: Seq<u8>, value: Seq<u8>) -> Option<Seq<u8>> {
    match resolve_ref(root_path(), None, path) {
        None => None,
        Some((p, q, f)) => {
            let pair = form_encode(key) + seq![0x3du8] + form_encode(value);
            let newq = match q {
                Some(qv) => qv + seq![0x26u8] + pair,
                None => pair,
            };
            Some(assemble_target(p, Some(newq), f))
        },
    }
}

// ---------------------------------------------------------------------------
// Characterizations of the search functions
// ---------------------------------------------------------------------------
pub proof fn lemma_find_byte(s: Seq<u8>, b: u8)
    ensures
        match find_byte(s, b) {
            Some(i) => 0 <= i < s.len() && s[i] == b && (forall|j: int|
                0 <= j < i ==> s[j] != b),
            None => forall|j: int| 0 <= j < s.len() ==> s[j] != b,
        },
    decreases s.len(),
{
    if s.len() > 0 && s[0] != b {
        lemma_find_byte(s.drop_first(), b);
        match find_byte(s.drop_first(), b) {
            Some(i0) => {
                assert(s[i0 + 1] == s.drop_first()[i0]);
                assert forall|j: int| 0 <= j < i0 + 1 implies s[j] != b by {
                    if j > 0 {
                        assert(s[j] == s.drop_first()[j - 1]);
                    }
                }
            },
            None => {
                assert forall|j: int| 0 <= j < s.len() implies s[j] != b by {
                    if j > 0 {
                        assert(s[j] == s.drop_first()[j - 1]);
                    }
                }
            },
        }
    }
}

pub proof fn lemma_count_leading_slashes(s: Seq<u8>)
    ensures
        0 <= count_leading_slashes(s) <= s.len(),
        forall|j: int| 0 <= j < count_leading_slashes(s) ==> is_slash(#[trigger] s[j]),
        count_leading_slashes(s) < s.len() ==> !is_slash(s[count_leading_slashes(s)]),
    decreases s.len(),
{
    if s.len() > 0 && is_slash(s[0]) {
        lemma_count_leading_slashes(s.drop_first());
        let c = count_leading_slashes(s);
        assert forall|j: int| 0 <= j < c implies is_slash(#[trigger] s[j]) by {
            if j > 0 {
                assert(s[j] == s.drop_first()[j - 1]);
            }
        }
        if c < s.len() {
            assert(s[c] == s.drop_first()[c - 1]);
        }
    }
}

pub proof fn lemma_until_slash(s: Seq<u8>)
    ensures
        0 <= until_slash(s) <= s.len(),
        forall|j: int| 0 <= j < until_slash(s) ==> !is_slash(#[trigger] s[j]),
        until_slash(s) < s.len() ==> is_slash(s[until_slash(s)]),
    decreases s.len(),
{
    if s.len() > 0 && !is_slash(s[0]) {
        lemma_until_slash(s.drop_first());
        let c = until_slash(s);
        assert forall|j: int| 0 <= j < c implies !is_slash(#[trigger] s[j]) by {
            if j > 0 {
                assert(s[j] == s.drop_first()[j - 1]);
            }
        }
        if c < s.len() {
            assert(s[c] == s.drop_first()[c - 1]);
        }
    }
}

pub proof fn lemma_cut_after_last_slash(s: Seq<u8>)
    ensures
        0 <= cut_after_last_slash(s) <= s.len(),
        cut_after_last_slash(s) > 0 ==> s[cut_after_last_slash(s) - 1] == 0x2f,
        forall|j: int| cut_after_last_slash(s) <= j < s.len() ==> #[trigger] s[j] != 0x2f,
    decreases s.len(),
{
    if s.len() > 0 && s.last() != 0x2f {
        lemma_cut_after_last_slash(s.drop_last());
        let c = cut_after_last_slash(s);
        assert forall|j: int| c <= j < s.len() implies #[trigger] s[j] != 0x2f by {
            if j < s.len() - 1 {
                assert(s[j] == s.drop_last()[j]);
            }
        }
    }
}

// ---------------------------------------------------------------------------
// ASCII reasoning: every resolved target is plain ASCII
// ---------------------------------------------------------------------------
pub open spec fn all_ascii(s: Seq<u8>) -> bool {
    forall|j: int| 0 <= j < s.len() ==> #[trigger] s[j] < 0x80
}

pub open spec fn all_ascii_segs(segs: Seq<Seq<u8>>) -> bool {
    forall|j: int| 0 <= j < segs.len() ==> all_ascii(#[trigger] segs[j])
}

pub proof fn lemma_pct_encode_ascii(s: Seq<u8>, enc: spec_fn(u8) -> bool)
    requires
        forall|b: u8| b >= 0x80 ==> #[trigger] enc(b),
    ensures
        all_ascii(pct_encode(s, enc)),
    decreases s.len(),
{
    if s.len() > 0 {
        lemma_pct_encode_ascii(s.drop_first(), enc);
    }
}

pub proof fn lemma_form_encode_ascii(s: Seq<u8>)
    ensures
        all_ascii(form_encode(s)),
    decreases s.len(),
{
    if s.len() > 0 {
        lemma_form_encode_ascii(s.drop_first());
    }
}

pub proof fn lemma_remove_dots_ascii(acc: Seq<Seq<u8>>, rest: Seq<Seq<u8>>)
    requires
        all_ascii_segs(acc),
        all_ascii_segs(rest),
    ensures
        all_ascii_segs(remove_dots(acc, rest)),
    decreases rest.len(),
{
    if rest.len() > 0 {
        let seg = rest[0];
        assert(all_ascii_segs(rest.drop_first()));
        if is_dot2(seg) {
            let popped = if acc.len() > 0 {
                acc.drop_last()
            } else {
                acc
            };
            assert(all_ascii_segs(popped));
            if rest.len() == 1 {
                assert(all_ascii(Seq::<u8>::empty()));
                assert(all_ascii_segs(popped.push(Seq::empty())));
            } else {
                lemma_remove_dots_ascii(popped, rest.drop_first());
            }
        } else if is_dot1(seg) {
            if rest.len() == 1 {
                assert(all_ascii(Seq::<u8>::empty()));
                assert(all_ascii_segs(acc.push(Seq::empty())));
            } else {
                lemma_remove_dots_ascii(acc, rest.drop_first());
            }
        } else {
            assert(all_ascii_segs(acc.push(seg)));
            lemma_remove_dots_ascii(acc.push(seg), rest.drop_first());
        }
    }
}

pub proof fn lemma_join_segments_ascii(segs: Seq<Seq<u8>>)
    requires
        all_ascii_segs(segs),
    ensures
        all_ascii(join_segments(segs)),
    decreases segs.len(),
{
    if segs.len() == 0 {
    } else {
        assert(all_ascii_segs(segs.drop_first()));
        if segs.len() > 1 {
            lemma_join_segments_ascii(segs.drop_first());
        }
    }
}

pub proof fn lemma_resolve_abs_path_ascii(p: Seq<u8>)
    ensures
        all_ascii(resolve_abs_path(p)),
{
    let segs = split_segments(unify_slashes(p).skip(1));
    let encoded = segs.map_values(|seg: Seq<u8>| pct_encode(seg, |b: u8| path_encode_byte(b)));
    assert forall|j: int| 0 <= j < encoded.len() implies all_ascii(#[trigger] encoded[j]) by {
        lemma_pct_encode_ascii(segs[j], |b: u8| path_encode_byte(b));
    }
    lemma_remove_dots_ascii(Seq::empty(), encoded);
    lemma_join_segments_ascii(remove_dots(Seq::empty(), encoded));
}

// ---------------------------------------------------------------------------
// Executable helpers
// ---------------------------------------------------------------------------
/// Which percent-encode set applies.
pub enum EncodeSet {
    PathSeg,
    Query,
    Fragment,
}

pub open spec fn enc_of(m: EncodeSet) -> spec_fn(u8) -> bool {
    match m {
        EncodeSet::PathSeg => |b: u8| path_encode_byte(b),
        EncodeSet::Query => |b: u8| query_encode_byte(b),
        EncodeSet::Fragment => |b: u8| frag_encode_byte(b),
    }
}

fn byte_needs_encoding(m: &EncodeSet, b: u8) -> (r: bool)
    ensures
        r == enc_of(*m)(b),
{
    match m {
        EncodeSet::PathSeg => b < 0x20 || b >= 0x7f || b == 0x20 || b == 0x22 || b == 0x23
            || b == 0x3c || b == 0x3e || b == 0x3f || b == 0x60 || b == 0x7b || b == 0x7d,
        EncodeSet::Query => b < 0x20 || b >= 0x7f || b == 0x20 || b == 0x22 || b == 0x23
            || b == 0x3c || b == 0x3e || b == 0x27,
        EncodeSet::Fragment => b < 0x20 || b >= 0x7f || b == 0x20 || b == 0x22 || b == 0x3c
            || b == 0x3e || b == 0x60,
    }
}

fn hexd(v: u8) -> (r: u8)
    requires
        v < 16,
    ensures
        r == hex_digit(v),
{
    if v < 10 {
        0x30 + v
    } else {
        0x37 + v
    }
}

fn lower_byte_exec(b: u8) -> (r: u8)
    ensures
        r == lower_byte(b),
{
    if 0x41 <= b && b <= 0x5a {
        b + 0x20
    } else {
        b
    }
}

/// First occurrence of `b` in `s` at or after `from`.
#[verifier::loop_isolation(false)]
pub(crate) fn find_byte_from(s: &[u8], from: usize, b: u8) -> (r: Option<usize>)
    requires
        from <= s@.len(),
    ensures
        match r {
            Some(i) => from <= i < s@.len() && find_byte(s@.skip(from as int), b) == Some(
                i - from,
            ),
            None => find_byte(s@.skip(from as int), b) is None,
        },
{
    let ghost tail = s@.skip(from as int);
    proof {
        lemma_find_byte(tail, b);
    }
    let mut j: usize = from;
    while j < s.len()
        invariant
            from <= j <= s@.len(),
            tail == s@.skip(from as int),
            forall|k: int| from <= k < j ==> s@[k] != b,
        decreases s@.len() - j,
    {
        if s[j] == b {
            proof {
                assert(tail[j - from] == s@[j as int]);
                if find_byte(tail, b) is None {
                    assert(false);
                }
                let i0 = find_byte(tail, b)->Some_0;
                if i0 < j - from {
                    assert(s@[i0 + from] == tail[i0]);
                    assert(false);
                }
                if i0 > j - from {
                    assert(false);
                }
            }
            return Some(j);
        }
        j += 1;
    }
    proof {
        if find_byte(tail, b) is Some {
            let i0 = find_byte(tail, b)->Some_0;
            assert(s@[i0 + from] == tail[i0]);
            assert(false);
        }
    }
    None
}

/// Percent-encode `s` with the set `m`.
#[verifier::loop_isolation(false)]
fn pct_encode_exec(s: &[u8], m: &EncodeSet) -> (r: Vec<u8>)
    ensures
        r@ == pct_encode(s@, enc_of(*m)),
{
    let ghost enc = enc_of(*m);
    let mut r: Vec<u8> = Vec::new();
    let mut i: usize = 0;
    proof {
        assert(s@.skip(0) =~= s@);
        assert(r@ + pct_encode(s@.skip(0), enc) =~= pct_encode(s@, enc));
    }
    while i < s.len()
        invariant
            i <= s@.len(),
            enc == enc_of(*m),
            pct_encode(s@, enc) == r@ + pct_encode(s@.skip(i as int), enc),
        decreases s@.len() - i,
    {
        let ghost pre = r@;
        let b = s[i];
        if byte_needs_encoding(m, b) {
            r.push(0x25);
            r.push(hexd(b / 16));
            r.push(hexd(b % 16));
            proof {
                assert(r@ =~= pre + pct_expand(b));
            }
        } else {
            r.push(b);
            proof {
                assert(r@ =~= pre + seq![b]);
            }
        }
        proof {
            assert(s@.skip(i as int)[0] == b);
            assert(s@.skip(i as int).drop_first() =~= s@.skip(i + 1));
        }
        i += 1;
    }
    proof {
        assert(s@.skip(s@.len() as int) =~= Seq::<u8>::empty());
        assert(r@ =~= r@ + pct_encode(s@.skip(s@.len() as int), enc));
    }
    r
}

/// Form-urlencode `s` (for one query key or value).
#[verifier::loop_isolation(false)]
fn form_encode_exec(s: &[u8]) -> (r: Vec<u8>)
    ensures
        r@ == form_encode(s@),
{
    let mut r: Vec<u8> = Vec::new();
    let mut i: usize = 0;
    proof {
        assert(s@.skip(0) =~= s@);
        assert(r@ + form_encode(s@.skip(0)) =~= form_encode(s@));
    }
    while i < s.len()
        invariant
            i <= s@.len(),
            form_encode(s@) == r@ + form_encode(s@.skip(i as int)),
        decreases s@.len() - i,
    {
        let ghost pre = r@;
        let b = s[i];
        let keep = (0x41 <= b && b <= 0x5a) || (0x61 <= b && b <= 0x7a) || (0x30 <= b && b
            <= 0x39) || b == 0x2a || b == 0x2d || b == 0x2e || b == 0x5f;
        if keep {
            r.push(b);
            proof {
                assert(r@ =~= pre + seq![b]);
            }
        } else if b == 0x20 {
            r.push(0x2b);
            proof {
                assert(r@ =~= pre + seq![0x2bu8]);
            }
        } else {
            r.push(0x25);
            r.push(hexd(b / 16));
            r.push(hexd(b % 16));
            proof {
                assert(r@ =~= pre + pct_expand(b));
            }
        }
        proof {
            assert(s@.skip(i as int)[0] == b);
            assert(s@.skip(i as int).drop_first() =~= s@.skip(i + 1));
        }
        i += 1;
    }
    proof {
        assert(s@.skip(s@.len() as int) =~= Seq::<u8>::empty());
        assert(r@ =~= r@ + form_encode(s@.skip(s@.len() as int)));
    }
    r
}

/// Replace backslashes by slashes.
#[verifier::loop_isolation(false)]
fn unify_slashes_exec(s: &[u8]) -> (r: Vec<u8>)
    ensures
        r@ == unify_slashes(s@),
{
    let mut r: Vec<u8> = Vec::new();
    let mut i: usize = 0;
    while i < s.len()
        invariant
            i <= s@.len(),
            r@.len() == i,
            forall|j: int|
                0 <= j < i ==> r@[j] == (if s@[j] == 0x5c {
                    0x2fu8
                } else {
                    s@[j]
                }),
        decreases s@.len() - i,
    {
        let b = s[i];
        if b == 0x5c {
            r.push(0x2f);
        } else {
            r.push(b);
        }
        i += 1;
    }
    proof {
        assert(r@ =~= unify_slashes(s@));
    }
    r
}

#[verifier::loop_isolation(false)]
fn count_leading_slashes_exec(s: &[u8]) -> (r: usize)
    ensures
        r == count_leading_slashes(s@),
{
    proof {
        lemma_count_leading_slashes(s@);
    }
    let mut i: usize = 0;
    while i < s.len()
        invariant
            i <= s@.len(),
            forall|j: int| 0 <= j < i ==> is_slash(#[trigger] s@[j]),
            i <= count_leading_slashes(s@),
        decreases s@.len() - i,
    {
        let b = s[i];
        if !(b == 0x2f || b == 0x5c) {
            proof {
                if count_leading_slashes(s@) > i {
                    assert(is_slash(s@[i as int]));
                }
            }
            return i;
        }
        proof {
            if count_leading_slashes(s@) == i {
                assert(!is_slash(s@[i as int]));
            }
        }
        i += 1;
    }
    i
}

#[verifier::loop_isolation(false)]
fn until_slash_exec(s: &[u8]) -> (r: usize)
    ensures
        r == until_slash(s@),
{
    proof {
        lemma_until_slash(s@);
    }
    let mut i: usize = 0;
    while i < s.len()
        invariant
            i <= s@.len(),
            forall|j: int| 0 <= j < i ==> !is_slash(#[trigger] s@[j]),
            i <= until_slash(s@),
        decreases s@.len() - i,
    {
        let b = s[i];
        if b == 0x2f || b == 0x5c {
            proof {
                if until_slash(s@) > i {
                    assert(!is_slash(s@[i as int]));
                }
            }
            return i;
        }
        proof {
            if until_slash(s@) == i {
                assert(is_slash(s@[i as int]));
            }
        }
        i += 1;
    }
    i
}

#[verifier::loop_isolation(false)]
fn cut_after_last_slash_exec(s: &[u8]) -> (r: usize)
    ensures
        r == cut_after_last_slash(s@),
{
    let mut j: usize = s.len();
    proof {
        assert(s@.take(s@.len() as int) =~= s@);
    }
    while j > 0
        invariant
            j <= s@.len(),
            cut_after_last_slash(s@) == cut_after_last_slash(s@.take(j as int)),
        decreases j,
    {
        if s[j - 1] == 0x2f {
            proof {
                assert(s@.take(j as int).last() == s@[j - 1]);
            }
            return j;
        }
        proof {
            assert(s@.take(j as int).last() == s@[j - 1]);
            assert(s@.take(j as int).drop_last() =~= s@.take(j - 1));
        }
        j -= 1;
    }
    proof {
        assert(s@.take(0) =~= Seq::<u8>::empty());
    }
    0
}

fn is_dot1_exec(s: &[u8]) -> (r: bool)
    ensures
        r == is_dot1(s@),
{
    if s.len() == 1 && s[0] == 0x2e {
        proof {
            assert(s@ =~= seq![0x2eu8]);
        }
        true
    } else if s.len() == 3 && s[0] == 0x25 && s[1] == 0x32 && (s[2] == 0x65 || s[2] == 0x45) {
        true
    } else {
        proof {
            if s@ == seq![0x2eu8] {
                assert(s@[0] == 0x2e && s@.len() == 1);
            }
        }
        false
    }
}

fn is_dot2_exec(s: &[u8]) -> (r: bool)
    ensures
        r == is_dot2(s@),
{
    if s.len() == 2 {
        let a = is_dot1_exec(slice_subrange(s, 0, 1));
        let b = is_dot1_exec(slice_subrange(s, 1, 2));
        proof {
            assert(s@.subrange(0, 1) =~= s@.take(1));
            assert(s@.subrange(1, 2) =~= s@.skip(1));
        }
        a && b
    } else if s.len() == 4 {
        let a1 = is_dot1_exec(slice_subrange(s, 0, 1));
        let a2 = is_dot1_exec(slice_subrange(s, 1, 4));
        let b1 = is_dot1_exec(slice_subrange(s, 0, 3));
        let b2 = is_dot1_exec(slice_subrange(s, 3, 4));
        proof {
            assert(s@.subrange(0, 1) =~= s@.take(1));
            assert(s@.subrange(1, 4) =~= s@.skip(1));
            assert(s@.subrange(0, 3) =~= s@.take(3));
            assert(s@.subrange(3, 4) =~= s@.skip(3));
        }
        (a1 && a2) || (b1 && b2)
    } else if s.len() == 6 {
        let a = is_dot1_exec(slice_subrange(s, 0, 3));
        let b = is_dot1_exec(slice_subrange(s, 3, 6));
        proof {
            assert(s@.subrange(0, 3) =~= s@.take(3));
            assert(s@.subrange(3, 6) =~= s@.skip(3));
        }
        a && b
    } else {
        false
    }
}

fn is_local_authority_exec(s: &[u8]) -> (r: bool)
    ensures
        r == is_local_authority(s@),
{
    let ghost lowered = s@.map_values(|b: u8| lower_byte(b));
    if s.len() != 9 && s.len() != 12 {
        proof {
            assert(lowered.len() == s@.len());
        }
        return false;
    }
    let host_ok = lower_byte_exec(s[0]) == 0x6c && lower_byte_exec(s[1]) == 0x6f
        && lower_byte_exec(s[2]) == 0x63 && lower_byte_exec(s[3]) == 0x61 && lower_byte_exec(
        s[4],
    ) == 0x6c && lower_byte_exec(s[5]) == 0x68 && lower_byte_exec(s[6]) == 0x6f
        && lower_byte_exec(s[7]) == 0x73 && lower_byte_exec(s[8]) == 0x74;
    proof {
        assert forall|j: int| 0 <= j < s@.len() implies lowered[j] == lower_byte(s@[j]) by {}
    }
    if s.len() == 9 {
        proof {
            if host_ok {
                assert(lowered =~= localhost_bytes());
            } else {
                assert(lowered != localhost_bytes());
            }
            assert(lowered.len() != (localhost_bytes() + seq![0x3au8, 0x38, 0x30]).len());
        }
        host_ok
    } else {
        let port_ok = s[9] == 0x3a && s[10] == 0x38 && s[11] == 0x30;
        proof {
            let full = localhost_bytes() + seq![0x3au8, 0x38, 0x30];
            if host_ok && port_ok {
                assert(lowered =~= full);
            } else {
                if lowered == full {
                    assert(lowered[0] == 0x6c && lowered[1] == 0x6f && lowered[2] == 0x63
                        && lowered[3] == 0x61 && lowered[4] == 0x6c && lowered[5] == 0x68
                        && lowered[6] == 0x6f && lowered[7] == 0x73 && lowered[8] == 0x74);
                    assert(lowered[9] == 0x3a && lowered[10] == 0x38 && lowered[11] == 0x30);
                    assert(lower_byte(s@[9]) == 0x3a ==> s@[9] == 0x3a);
                    assert(lower_byte(s@[10]) == 0x38 ==> s@[10] == 0x38);
                    assert(lower_byte(s@[11]) == 0x30 ==> s@[11] == 0x30);
                }
            }
            assert(lowered.len() != localhost_bytes().len());
        }
        host_ok && port_ok
    }
}

// ---------------------------------------------------------------------------
// Views of a vector of byte vectors
// ---------------------------------------------------------------------------
pub open spec fn views_of(s: Seq<Vec<u8>>) -> Seq<Seq<u8>> {
    Seq::new(s.len(), |i: int| s[i]@)
}

pub open spec fn out_last_of(s: Seq<Vec<u8>>) -> Vec<u8> {
    s.last()
}

pub proof fn lemma_views_push(s: Seq<Vec<u8>>, v: Vec<u8>)
    ensures
        views_of(s.push(v)) =~= views_of(s).push(v@),
{
    assert forall|j: int| 0 <= j < s.len() + 1 implies views_of(s.push(v))[j] == views_of(
        s,
    ).push(v@)[j] by {
        if j < s.len() {
            assert(s.push(v)[j] == s[j]);
        } else {
            assert(s.push(v)[j] == v);
        }
    }
}

pub proof fn lemma_views_drop_last(s: Seq<Vec<u8>>)
    requires
        s.len() > 0,
    ensures
        views_of(s.drop_last()) =~= views_of(s).drop_last(),
{
    assert forall|j: int| 0 <= j < s.len() - 1 implies views_of(s.drop_last())[j] == views_of(
        s,
    ).drop_last()[j] by {
        assert(s.drop_last()[j] == s[j]);
    }
}

// ---------------------------------------------------------------------------
// Segment-level executable functions
// ---------------------------------------------------------------------------
/// Segments of `s@.skip(from)`, split at every `/`.
#[verifier::loop_isolation(false)]
fn split_segments_from(s: &[u8], from: usize) -> (r: Vec<Vec<u8>>)
    requires
        from <= s@.len(),
    ensures
        views_of(r@) == split_segments(s@.skip(from as int)),
{
    let slen: usize = s.len();
    let mut out: Vec<Vec<u8>> = Vec::new();
    let mut pos: usize = from;
    proof {
        assert(views_of(out@) =~= Seq::<Seq<u8>>::empty());
        assert(Seq::<Seq<u8>>::empty() + split_segments(s@.skip(from as int)) =~= split_segments(
            s@.skip(from as int),
        ));
    }
    loop
        invariant
            from <= pos <= s@.len(),
            split_segments(s@.skip(from as int)) == views_of(out@) + split_segments(
                s@.skip(pos as int),
            ),
        decreases s@.len() - pos,
    {
        let ghost tail = s@.skip(pos as int);
        let ghost pre = views_of(out@);
        match find_byte_from(s, pos, 0x2f) {
            Some(i) => {
                let seg = slice_to_vec(slice_subrange(s, pos, i));
                let ghost pre_at = out@;
                let ghost segv = seg@;
                out.push(seg);
                proof {
                    let gi = i - pos;
                    lemma_views_push(pre_at, out@.last());
                    assert(views_of(out@) =~= pre.push(segv));
                    assert(tail.take(gi) =~= s@.subrange(pos as int, i as int));
                    assert(tail.skip(gi + 1) =~= s@.skip(i + 1));
                    assert(split_segments(tail) == seq![tail.take(gi)] + split_segments(
                        tail.skip(gi + 1),
                    ));
                    assert(views_of(out@) =~= pre + seq![tail.take(gi)]);
                    assert(pre + seq![tail.take(gi)] + split_segments(s@.skip(i + 1)) =~= pre
                        + split_segments(tail));
                }
                pos = i + 1;
            },
            None => {
                let seg = slice_to_vec(slice_subrange(s, pos, s.len()));
                let ghost pre_at = out@;
                let ghost segv = seg@;
                out.push(seg);
                proof {
                    lemma_views_push(pre_at, out@.last());
                    assert(views_of(out@) =~= pre.push(segv));
                    assert(tail =~= s@.subrange(pos as int, s@.len() as int));
                    assert(split_segments(tail) == seq![tail]);
                    assert(views_of(out@) =~= pre + seq![tail]);
                }
                return out;
            },
        }
    }
}

/// Percent-encode every segment with the path-segment set.
#[verifier::loop_isolation(false)]
fn encode_segments(segs: &Vec<Vec<u8>>) -> (r: Vec<Vec<u8>>)
    ensures
        views_of(r@) == views_of(segs@).map_values(
            |seg: Seq<u8>| pct_encode(seg, |b: u8| path_encode_byte(b)),
        ),
{
    let ghost target = views_of(segs@).map_values(
        |seg: Seq<u8>| pct_encode(seg, |b: u8| path_encode_byte(b)),
    );
    let mut out: Vec<Vec<u8>> = Vec::new();
    let mut i: usize = 0;
    while i < segs.len()
        invariant
            i <= segs@.len(),
            views_of(out@).len() == i,
            forall|j: int| 0 <= j < i ==> views_of(out@)[j] == target[j],
        decreases segs@.len() - i,
    {
        let enc = pct_encode_exec(segs[i].as_slice(), &EncodeSet::PathSeg);
        let ghost pre = views_of(out@);
        let ghost pre_at = out@;
        let ghost encv = enc@;
        out.push(enc);
        proof {
            lemma_views_push(pre_at, out@.last());
            assert(views_of(out@) =~= pre.push(encv));
            assert(target[i as int] == pct_encode(segs@[i as int]@, |b: u8| path_encode_byte(b)));
            assert forall|j: int| 0 <= j < i + 1 implies views_of(out@)[j] == target[j] by {
                if j < i {
                    assert(views_of(out@)[j] == pre[j]);
                }
            }
        }
        i += 1;
    }
    proof {
        assert(views_of(out@) =~= target);
    }
    out
}

/// Dot-segment removal, executable form.
#[verifier::loop_isolation(false)]
fn remove_dots_exec(segs: Vec<Vec<u8>>) -> (r: Vec<Vec<u8>>)
    ensures
        views_of(r@) == remove_dots(Seq::empty(), views_of(segs@)),
{
    let ghost all = views_of(segs@);
    let mut acc: Vec<Vec<u8>> = Vec::new();
    let mut i: usize = 0;
    proof {
        assert(views_of(acc@) =~= Seq::<Seq<u8>>::empty());
        assert(all.skip(0) =~= all);
    }
    while i < segs.len()
        invariant
            i <= segs@.len(),
            remove_dots(Seq::empty(), all) == remove_dots(views_of(acc@), all.skip(i as int)),
        decreases segs@.len() - i,
    {
        let ghost rest = all.skip(i as int);
        let ghost acc0 = views_of(acc@);
        proof {
            assert(rest[0] == all[i as int]);
            assert(rest.drop_first() =~= all.skip(i + 1));
            assert(rest.len() == 1 <==> i == segs@.len() - 1);
        }
        let seg = &segs[i];
        let d2 = is_dot2_exec(seg.as_slice());
        let d1 = if d2 {
            false
        } else {
            is_dot1_exec(seg.as_slice())
        };
        if d2 {
            let ghost before_pop_at = acc@;
            if acc.len() > 0 {
                let _dropped = acc.pop();
                proof {
                    lemma_views_drop_last(before_pop_at);
                    assert(acc@ =~= before_pop_at.drop_last());
                    assert(views_of(acc@) =~= views_of(before_pop_at).drop_last());
                }
            }
            if i + 1 == segs.len() {
                let empty_seg: Vec<u8> = Vec::new();
                let ghost popped_at = acc@;
                let ghost popped = views_of(acc@);
                acc.push(empty_seg);
                proof {
                    lemma_views_push(popped_at, out_last_of(acc@));
                    assert(views_of(acc@) =~= popped.push(Seq::<u8>::empty()));
                }
            }
        } else if d1 {
            if i + 1 == segs.len() {
                let empty_seg: Vec<u8> = Vec::new();
                let ghost acc_at = acc@;
                acc.push(empty_seg);
                proof {
                    lemma_views_push(acc_at, out_last_of(acc@));
                    assert(views_of(acc@) =~= acc0.push(Seq::<u8>::empty()));
                }
            }
        } else {
            let ghost segv = segs@[i as int]@;
            let ghost acc_at = acc@;
            let copy = slice_to_vec(seg.as_slice());
            acc.push(copy);
            proof {
                lemma_views_push(acc_at, out_last_of(acc@));
                assert(views_of(acc@) =~= acc0.push(segv));
            }
        }
        i += 1;
    }
    proof {
        assert(all.skip(all.len() as int) =~= Seq::<Seq<u8>>::empty());
    }
    acc
}

/// Serialise the segments of `segs@.skip(from)` into an absolute path.
fn join_segments_exec(segs: &Vec<Vec<u8>>, from: usize) -> (r: Vec<u8>)
    requires
        from <= segs@.len(),
    ensures
        r@ == join_segments(views_of(segs@).skip(from as int)),
    decreases segs@.len() - from,
{
    let ghost tail = views_of(segs@).skip(from as int);
    let mut r: Vec<u8> = Vec::new();
    r.push(0x2f);
    if from == segs.len() {
        proof {
            assert(tail.len() == 0);
            assert(r@ =~= seq![0x2fu8]);
        }
        return r;
    }
    crate::text::push_all(&mut r, segs[from].as_slice());
    proof {
        assert(tail[0] == views_of(segs@)[from as int]);
        assert(r@ =~= seq![0x2fu8] + tail[0]);
    }
    if from + 1 < segs.len() {
        let rest = join_segments_exec(segs, from + 1);
        crate::text::push_all(&mut r, rest.as_slice());
        proof {
            assert(tail.drop_first() =~= views_of(segs@).skip(from + 1));
            assert(r@ =~= seq![0x2fu8] + tail[0] + join_segments(tail.drop_first()));
        }
    } else {
        proof {
            assert(tail.len() == 1);
            assert(r@ =~= seq![0x2fu8] + tail[0] + Seq::<u8>::empty());
        }
    }
    r
}

/// Resolve an absolute-path reference, executable form.
fn resolve_abs_path_exec(p: &[u8]) -> (r: Vec<u8>)
    requires
        p@.len() > 0,
        is_slash(p@[0]),
    ensures
        r@ == resolve_abs_path(p@),
        r@.len() > 0,
        r@[0] == 0x2f,
{
    let unified = unify_slashes_exec(p);
    let segs = split_segments_from(unified.as_slice(), 1);
    let encoded = encode_segments(&segs);
    let cleaned = remove_dots_exec(encoded);
    let r = join_segments_exec(&cleaned, 0);
    proof {
        assert(unified@.skip(1) =~= unify_slashes(p@).skip(1));
        assert(views_of(cleaned@).skip(0) =~= views_of(cleaned@));
        lemma_join_starts_slash(views_of(cleaned@));
    }
    r
}

/// Merge a relative reference into a base path, executable form.
fn merge_paths_exec(base: &[u8], rel: &[u8]) -> (r: Vec<u8>)
    ensures
        r@ == merge_paths(base@, rel@),
{
    proof {
        lemma_cut_after_last_slash(base@);
    }
    let cut = cut_after_last_slash_exec(base);
    let mut r = slice_to_vec(slice_subrange(base, 0, cut));
    crate::text::push_all(&mut r, rel);
    proof {
        assert(base@.subrange(0, cut as int) =~= base@.take(cut as int));
    }
    r
}

/// Leading scheme length, executable form.
#[verifier::loop_isolation(false)]
fn scheme_len_exec(s: &[u8]) -> (r: Option<usize>)
    ensures
        match r {
            Some(i) => i < s@.len() && scheme_len(s@) == Some(i as int),
            None => scheme_len(s@) is None,
        },
{
    proof {
        assert(s@.skip(0) =~= s@);
    }
    if s.len() == 0 {
        return None;
    }
    let b0 = s[0];
    if !((0x41 <= b0 && b0 <= 0x5a) || (0x61 <= b0 && b0 <= 0x7a)) {
        return None;
    }
    let i = match find_byte_from(s, 0, 0x3a) {
        Some(i) => i,
        None => {
            return None;
        },
    };
    let mut j: usize = 0;
    while j < i
        invariant
            j <= i,
            forall|k: int| 1 <= k < j ==> is_scheme_byte(#[trigger] s@[k]),
            forall|k: int|
                0 <= k < j ==> #[trigger] s@[k] != 0x2f && s@[k] != 0x5c && s@[k] != 0x3f
                    && s@[k] != 0x23,
        decreases i - j,
    {
        let b = s[j];
        if b == 0x2f || b == 0x5c || b == 0x3f || b == 0x23 {
            return None;
        }
        if j >= 1 {
            let sb = (0x41 <= b && b <= 0x5a) || (0x61 <= b && b <= 0x7a) || (0x30 <= b && b
                <= 0x39) || b == 0x2b || b == 0x2d || b == 0x2e;
            if !sb {
                return None;
            }
        }
        j += 1;
    }
    Some(i)
}

// ---------------------------------------------------------------------------
// Reference resolution, executable form
// ---------------------------------------------------------------------------
struct ResolvedTarget {
    path: Vec<u8>,
    query: Option<Vec<u8>>,
    frag: Option<Vec<u8>>,
}

spec fn ov(o: Option<Vec<u8>>) -> Option<Seq<u8>> {
    match o {
        Some(v) => Some(v@),
        None => None,
    }
}

spec fn ovr(o: Option<&Vec<u8>>) -> Option<Seq<u8>> {
    match o {
        Some(v) => Some(v@),
        None => None,
    }
}

pub open spec fn all_ascii_opt(o: Option<Seq<u8>>) -> bool {
    match o {
        Some(v) => all_ascii(v),
        None => true,
    }
}

/// Executable reference resolution against a canonical base.
#[verifier::rlimit(60)]
fn resolve_ref_exec(bpath: &Vec<u8>, bquery: Option<&Vec<u8>>, t: &[u8]) -> (r: Option<
    ResolvedTarget,
>)
    requires
        bpath@.len() > 0,
        bpath@[0] == 0x2f,
        all_ascii(bpath@),
        all_ascii_opt(ovr(bquery)),
    ensures
        match r {
            Some(res) => resolve_ref(bpath@, ovr(bquery), t@) == Some(
                (res.path@, ov(res.query), ov(res.frag)),
            ) && all_ascii(res.path@) && all_ascii_opt(ov(res.query)) && all_ascii_opt(
                ov(res.frag),
            ) && res.path@.len() > 0 && res.path@[0] == 0x2f,
            None => resolve_ref(bpath@, ovr(bquery), t@) is None,
        },
{
    // scheme
    let tlen: usize = t.len();
    let rest_start: usize = match scheme_len_exec(t) {
        Some(i) => {
            let sch = slice_subrange(t, 0, i);
            let http = sch.len() == 4 && lower_byte_exec(sch[0]) == 0x68 && lower_byte_exec(
                sch[1],
            ) == 0x74 && lower_byte_exec(sch[2]) == 0x74 && lower_byte_exec(sch[3]) == 0x70;
            proof {
                assert(t@.subrange(0, i as int) =~= t@.take(i as int));
            }
            if !http {
                return None;
            }
            i + 1
        },
        None => 0,
    };
    let rsl = slice_subrange(t, rest_start, t.len());
    let ghost rview = t@.skip(rest_start as int);
    proof {
        assert(rsl@ =~= rview);
        assert(rsl@.skip(0) =~= rsl@);
        if rest_start == 0 {
            assert(t@.skip(0) =~= t@);
        }
    }
    // fragment
    let (body_end, frag): (usize, Option<Vec<u8>>) = match find_byte_from(rsl, 0, 0x23) {
        Some(h) => {
            let fr = pct_encode_exec(slice_subrange(rsl, h + 1, rsl.len()), &EncodeSet::Fragment);
            proof {
                lemma_pct_encode_ascii(rsl@.skip(h + 1), enc_of(EncodeSet::Fragment));
                assert(rsl@.subrange(h + 1, rsl@.len() as int) =~= rview.skip(h + 1));
            }
            (h, Some(fr))
        },
        None => (rsl.len(), None),
    };
    let body = slice_subrange(rsl, 0, body_end);
    let ghost bodyview = before_byte(rview, 0x23);
    proof {
        assert(body@ =~= bodyview);
        assert(body@.skip(0) =~= body@);
    }
    // query
    let (path_end, query): (usize, Option<Vec<u8>>) = match find_byte_from(body, 0, 0x3f) {
        Some(q) => {
            let qv = pct_encode_exec(slice_subrange(body, q + 1, body.len()), &EncodeSet::Query);
            proof {
                lemma_pct_encode_ascii(body@.skip(q + 1), enc_of(EncodeSet::Query));
                assert(body@.subrange(q + 1, body@.len() as int) =~= bodyview.skip(q + 1));
            }
            (q, Some(qv))
        },
        None => (body.len(), None),
    };
    let pathpart = slice_subrange(body, 0, path_end);
    let ghost ppview = before_byte(bodyview, 0x3f);
    proof {
        assert(pathpart@ =~= ppview);
    }
    let n = count_leading_slashes_exec(pathpart);
    proof {
        lemma_count_leading_slashes(ppview);
    }
    if n >= 2 {
        // network-path reference
        let rest = slice_subrange(pathpart, n, pathpart.len());
        proof {
            assert(rest@ =~= ppview.skip(n as int));
            lemma_until_slash(rest@);
        }
        let us = until_slash_exec(rest);
        let auth = slice_subrange(rest, 0, us);
        let tail = slice_subrange(rest, us, rest.len());
        proof {
            assert(auth@ =~= ppview.skip(n as int).take(until_slash(ppview.skip(n as int))));
            assert(tail@ =~= ppview.skip(n as int).skip(until_slash(ppview.skip(n as int))));
        }
        if !is_local_authority_exec(auth) {
            return None;
        }
        let path: Vec<u8> = if tail.len() == 0 {
            let mut root: Vec<u8> = Vec::new();
            root.push(0x2f);
            proof {
                assert(root@ =~= seq![0x2fu8]);
            }
            root
        } else {
            proof {
                assert(is_slash(tail@[0]));
            }
            resolve_abs_path_exec(tail)
        };
        proof {
            if tail@.len() == 0 {
                assert(all_ascii(seq![0x2fu8]));
            } else {
                lemma_resolve_abs_path_ascii(tail@);
            }
        }
        if path.len() >= 2 && path[1] == 0x2f {
            return None;
        }
        Some(ResolvedTarget { path, query, frag })
    } else if n == 1 {
        proof {
            assert(is_slash(ppview[0]));
            lemma_resolve_abs_path_ascii(ppview);
        }
        let path = resolve_abs_path_exec(pathpart);
        if path.len() >= 2 && path[1] == 0x2f {
            return None;
        }
        Some(ResolvedTarget { path, query, frag })
    } else if pathpart.len() == 0 {
        let path = slice_to_vec(bpath.as_slice());
        if query.is_some() {
            Some(ResolvedTarget { path, query, frag })
        } else {
            let bq: Option<Vec<u8>> = match bquery {
                Some(v) => Some(slice_to_vec(v.as_slice())),
                None => None,
            };
            Some(ResolvedTarget { path, query: bq, frag })
        }
    } else {
        let merged = merge_paths_exec(bpath.as_slice(), pathpart);
        proof {
            lemma_cut_after_last_slash(bpath@);
            if cut_after_last_slash(bpath@) == 0 {
                assert(bpath@[0] != 0x2f);
            }
            assert(merged@[0] == bpath@[0]);
            lemma_resolve_abs_path_ascii(merged@);
        }
        let path = resolve_abs_path_exec(merged.as_slice());
        if path.len() >= 2 && path[1] == 0x2f {
            return None;
        }
        Some(ResolvedTarget { path, query, frag })
    }
}

/// A serialised path always begins with `/` (it is a `join_segments` image).
pub proof fn lemma_join_starts_slash(segs: Seq<Seq<u8>>)
    ensures
        join_segments(segs).len() > 0,
        join_segments(segs)[0] == 0x2f,
{
}

// ---------------------------------------------------------------------------
// Idempotence of resolution
// ---------------------------------------------------------------------------
/// Percent-encoding distributes over concatenation.
proof fn lemma_pct_encode_concat(a: Seq<u8>, b: Seq<u8>, enc: spec_fn(u8) -> bool)
    ensures
        pct_encode(a + b, enc) == pct_encode(a, enc) + pct_encode(b, enc),
    decreases a.len(),
{
    if a.len() == 0 {
        assert(a + b =~= b);
        assert(pct_encode(a, enc) + pct_encode(b, enc) =~= pct_encode(b, enc));
    } else {
        lemma_pct_encode_concat(a.drop_first(), b, enc);
        assert((a + b).drop_first() =~= a.drop_first() + b);
        assert((a + b)[0] == a[0]);
        let piece = if enc(a[0]) {
            pct_expand(a[0])
        } else {
            seq![a[0]]
        };
        assert(pct_encode(a + b, enc) == piece + (pct_encode(a.drop_first(), enc) + pct_encode(
            b,
            enc,
        )));
        assert(piece + (pct_encode(a.drop_first(), enc) + pct_encode(b, enc)) =~= (piece
            + pct_encode(a.drop_first(), enc)) + pct_encode(b, enc));
    }
}

/// An encode set that never selects `%` or an upper-case hex digit (all
/// three sets used here) makes percent-encoding idempotent.
proof fn lemma_pct_encode_fixpoint(s: Seq<u8>, enc: spec_fn(u8) -> bool)
    requires
        !enc(0x25),
        forall|v: u8| v < 16 ==> !enc(#[trigger] hex_digit(v)),
    ensures
        pct_encode(pct_encode(s, enc), enc) == pct_encode(s, enc),
    decreases s.len(),
{
    if s.len() > 0 {
        lemma_pct_encode_fixpoint(s.drop_first(), enc);
        let piece = if enc(s[0]) {
            pct_expand(s[0])
        } else {
            seq![s[0]]
        };
        lemma_pct_encode_concat(piece, pct_encode(s.drop_first(), enc), enc);
        assert(pct_encode(Seq::<u8>::empty(), enc) == Seq::<u8>::empty());
        if enc(s[0]) {
            assert(s[0] / 16 < 16 && s[0] % 16 < 16);
            let d1 = hex_digit(s[0] / 16);
            let d2 = hex_digit(s[0] % 16);
            assert(!enc(d1) && !enc(d2));
            let t2 = seq![d2];
            assert(t2.len() == 1 && t2[0] == d2 && t2.drop_first() =~= Seq::<u8>::empty());
            assert(pct_encode(t2, enc) == seq![d2] + pct_encode(Seq::<u8>::empty(), enc));
            assert(pct_encode(t2, enc) =~= t2);
            let t1 = seq![d1, d2];
            assert(t1.len() == 2 && t1[0] == d1 && t1.drop_first() =~= t2);
            assert(pct_encode(t1, enc) == seq![d1] + pct_encode(t2, enc));
            assert(pct_encode(t1, enc) =~= t1);
            assert(piece.len() == 3 && piece[0] == 0x25 && piece.drop_first() =~= t1);
            assert(pct_encode(piece, enc) == seq![0x25u8] + pct_encode(t1, enc));
            assert(pct_encode(piece, enc) =~= piece);
        } else {
            assert(piece.len() == 1 && piece[0] == s[0] && piece.drop_first()
                =~= Seq::<u8>::empty());
            assert(pct_encode(piece, enc) == seq![s[0]] + pct_encode(Seq::<u8>::empty(), enc));
            assert(pct_encode(piece, enc) =~= piece);
        }
        assert(pct_encode(pct_encode(s, enc), enc) == pct_encode(piece, enc) + pct_encode(
            pct_encode(s.drop_first(), enc),
            enc,
        ));
    }
}

/// A byte that the set selects, and that is neither `%` nor an upper-case
/// hex digit, never appears in encoded output; a byte the set does not
/// select appears only where the input had it.
proof fn lemma_pct_encode_no_byte(s: Seq<u8>, enc: spec_fn(u8) -> bool, b: u8)
    requires
        b != 0x25,
        forall|v: u8| v < 16 ==> #[trigger] hex_digit(v) != b,
        enc(b) || (forall|j: int| 0 <= j < s.len() ==> s[j] != b),
    ensures
        forall|j: int| 0 <= j < pct_encode(s, enc).len() ==> #[trigger] pct_encode(s, enc)[j]
            != b,
    decreases s.len(),
{
    if s.len() > 0 {
        assert(s.drop_first().len() == s.len() - 1);
        if !enc(b) {
            assert forall|j: int| 0 <= j < s.drop_first().len() implies s.drop_first()[j]
                != b by {
                assert(s.drop_first()[j] == s[j + 1]);
            }
        }
        lemma_pct_encode_no_byte(s.drop_first(), enc, b);
        let piece = if enc(s[0]) {
            pct_expand(s[0])
        } else {
            seq![s[0]]
        };
        assert(s[0] / 16 < 16 && s[0] % 16 < 16);
        assert forall|j: int| 0 <= j < piece.len() implies #[trigger] piece[j] != b by {}
        let out = pct_encode(s, enc);
        assert(out == piece + pct_encode(s.drop_first(), enc));
        assert forall|j: int| 0 <= j < out.len() implies #[trigger] out[j] != b by {
            if j < piece.len() {
                assert(out[j] == piece[j]);
            } else {
                assert(out[j] == pct_encode(s.drop_first(), enc)[j - piece.len()]);
            }
        }
    }
}

/// Splitting recovers the segments a join was built from, as long as no
/// segment contains a separator.
proof fn lemma_split_join(segs: Seq<Seq<u8>>)
    requires
        segs.len() > 0,
        forall|i: int, j: int|
            0 <= i < segs.len() && 0 <= j < segs[i].len() ==> #[trigger] segs[i][j] != 0x2f,
    ensures
        split_segments(join_segments(segs).skip(1)) == segs,
    decreases segs.len(),
{
    let s = join_segments(segs).skip(1);
    let first = segs[0];
    if segs.len() == 1 {
        assert(join_segments(segs) == seq![0x2fu8] + first + Seq::<u8>::empty());
        assert(s =~= first);
        lemma_find_byte(s, 0x2f);
        match find_byte(s, 0x2f) {
            Some(i) => {
                assert(s[i] == first[i]);
                assert(false);
            },
            None => {
                assert(split_segments(s) =~= segs);
            },
        }
    } else {
        let rest = segs.drop_first();
        assert forall|i: int, j: int|
            0 <= i < rest.len() && 0 <= j < rest[i].len() implies #[trigger] rest[i][j]
            != 0x2f by {
            assert(rest[i] == segs[i + 1]);
        }
        lemma_split_join(rest);
        let jr = join_segments(rest);
        lemma_join_starts_slash(rest);
        assert(join_segments(segs) == seq![0x2fu8] + first + jr);
        assert(s =~= first + jr);
        let l = first.len() as int;
        assert(s[l] == jr[0]);
        assert forall|j: int| 0 <= j < l implies #[trigger] s[j] != 0x2f by {
            assert(s[j] == first[j]);
        }
        lemma_find_byte(s, 0x2f);
        match find_byte(s, 0x2f) {
            Some(i) => {
                if i < l {
                    assert(s[i] != 0x2f);
                }
                if i > l {
                    assert(s[l] != 0x2f);
                }
                assert(i == l);
                assert(s.take(l) =~= first);
                assert(s.skip(l + 1) =~= jr.skip(1));
                assert(split_segments(s) == seq![first] + split_segments(jr.skip(1)));
                assert(seq![first] + rest =~= segs);
            },
            None => {
                assert(s[l] != 0x2f);
                assert(false);
            },
        }
    }
}

/// With no dot segments left, removal just appends.
proof fn lemma_remove_dots_identity(acc: Seq<Seq<u8>>, rest: Seq<Seq<u8>>)
    requires
        forall|i: int|
            0 <= i < rest.len() ==> !is_dot1(#[trigger] rest[i]) && !is_dot2(rest[i]),
    ensures
        remove_dots(acc, rest) == acc + rest,
    decreases rest.len(),
{
    if rest.len() == 0 {
        assert(acc + rest =~= acc);
    } else {
        assert forall|i: int|
            0 <= i < rest.drop_first().len() implies !is_dot1(#[trigger] rest.drop_first()[i])
            && !is_dot2(rest.drop_first()[i]) by {
            assert(rest.drop_first()[i] == rest[i + 1]);
        }
        lemma_remove_dots_identity(acc.push(rest[0]), rest.drop_first());
        assert(acc.push(rest[0]) + rest.drop_first() =~= acc + rest);
    }
}

/// Every segment that removal leaves standing satisfies any property that
/// holds of the empty segment, of the accumulated segments, and of the
/// non-dot segments still to come.
proof fn lemma_remove_dots_preserves(
    acc: Seq<Seq<u8>>,
    rest: Seq<Seq<u8>>,
    p: spec_fn(Seq<u8>) -> bool,
)
    requires
        p(Seq::<u8>::empty()),
        forall|i: int| 0 <= i < acc.len() ==> p(#[trigger] acc[i]),
        forall|i: int|
            0 <= i < rest.len() && !is_dot1(#[trigger] rest[i]) && !is_dot2(rest[i]) ==> p(
                rest[i],
            ),
    ensures
        forall|i: int|
            0 <= i < remove_dots(acc, rest).len() ==> p(#[trigger] remove_dots(acc, rest)[i]),
    decreases rest.len(),
{
    if rest.len() > 0 {
        let seg = rest[0];
        let tail = rest.drop_first();
        assert forall|i: int|
            0 <= i < tail.len() && !is_dot1(#[trigger] tail[i]) && !is_dot2(tail[i]) implies p(
            tail[i],
        ) by {
            assert(tail[i] == rest[i + 1]);
        }
        if is_dot2(seg) {
            let popped = if acc.len() > 0 {
                acc.drop_last()
            } else {
                acc
            };
            assert forall|i: int| 0 <= i < popped.len() implies p(#[trigger] popped[i]) by {
                assert(popped[i] == acc[i]);
            }
            if rest.len() == 1 {
                let out = popped.push(Seq::<u8>::empty());
                assert forall|i: int| 0 <= i < out.len() implies p(#[trigger] out[i]) by {
                    if i < popped.len() {
                        assert(out[i] == popped[i]);
                    } else {
                        assert(out[i] == Seq::<u8>::empty());
                    }
                }
                assert(remove_dots(acc, rest) == out);
            } else {
                lemma_remove_dots_preserves(popped, tail, p);
                assert(remove_dots(acc, rest) == remove_dots(popped, tail));
            }
        } else if is_dot1(seg) {
            if rest.len() == 1 {
                let out = acc.push(Seq::<u8>::empty());
                assert forall|i: int| 0 <= i < out.len() implies p(#[trigger] out[i]) by {
                    if i < acc.len() {
                        assert(out[i] == acc[i]);
                    } else {
                        assert(out[i] == Seq::<u8>::empty());
                    }
                }
                assert(remove_dots(acc, rest) == out);
            } else {
                lemma_remove_dots_preserves(acc, tail, p);
                assert(remove_dots(acc, rest) == remove_dots(acc, tail));
            }
        } else {
            let pushed = acc.push(seg);
            assert forall|i: int| 0 <= i < pushed.len() implies p(#[trigger] pushed[i]) by {
                if i < acc.len() {
                    assert(pushed[i] == acc[i]);
                } else {
                    assert(pushed[i] == seg);
                }
            }
            lemma_remove_dots_preserves(pushed, tail, p);
            assert(remove_dots(acc, rest) == remove_dots(pushed, tail));
        }
    }
}

/// No split segment contains a separator.
proof fn lemma_split_no_slash(s: Seq<u8>)
    ensures
        forall|i: int, j: int|
            0 <= i < split_segments(s).len() && 0 <= j < split_segments(s)[i].len()
                ==> #[trigger] split_segments(s)[i][j] != 0x2f,
    decreases s.len(),
{
    lemma_find_byte(s, 0x2f);
    let segs = split_segments(s);
    match find_byte(s, 0x2f) {
        Some(i) => {
            lemma_split_no_slash(s.skip(i + 1));
            let rest = split_segments(s.skip(i + 1));
            assert forall|a: int, j: int|
                0 <= a < segs.len() && 0 <= j < segs[a].len() implies #[trigger] segs[a][j]
                != 0x2f by {
                if a == 0 {
                    assert(segs[0] == s.take(i));
                    assert(s.take(i)[j] == s[j]);
                } else {
                    assert(segs[a] == rest[a - 1]);
                }
            }
        },
        None => {
            assert forall|a: int, j: int|
                0 <= a < segs.len() && 0 <= j < segs[a].len() implies #[trigger] segs[a][j]
                != 0x2f by {
                assert(segs[0] == s);
            }
        },
    }
}

/// A byte absent from the split input is absent from every split segment.
proof fn lemma_split_bytes_no(s: Seq<u8>, b: u8)
    requires
        forall|j: int| 0 <= j < s.len() ==> #[trigger] s[j] != b,
    ensures
        forall|i: int, j: int|
            0 <= i < split_segments(s).len() && 0 <= j < split_segments(s)[i].len()
                ==> #[trigger] split_segments(s)[i][j] != b,
    decreases s.len(),
{
    lemma_find_byte(s, 0x2f);
    let segs = split_segments(s);
    match find_byte(s, 0x2f) {
        Some(i) => {
            assert forall|j: int| 0 <= j < s.skip(i + 1).len() implies #[trigger] s.skip(
                i + 1,
            )[j] != b by {
                assert(s.skip(i + 1)[j] == s[j + i + 1]);
            }
            lemma_split_bytes_no(s.skip(i + 1), b);
            let rest = split_segments(s.skip(i + 1));
            assert forall|a: int, j: int|
                0 <= a < segs.len() && 0 <= j < segs[a].len() implies #[trigger] segs[a][j]
                != b by {
                if a == 0 {
                    assert(segs[0] == s.take(i));
                    assert(s.take(i)[j] == s[j]);
                } else {
                    assert(segs[a] == rest[a - 1]);
                }
            }
        },
        None => {
            assert forall|a: int, j: int|
                0 <= a < segs.len() && 0 <= j < segs[a].len() implies #[trigger] segs[a][j]
                != b by {
                assert(segs[0] == s);
            }
        },
    }
}

/// A byte other than the separator that no segment holds does not appear in
/// the joined path.
proof fn lemma_join_no_byte(segs: Seq<Seq<u8>>, b: u8)
    requires
        b != 0x2f,
        forall|i: int, j: int|
            0 <= i < segs.len() && 0 <= j < segs[i].len() ==> #[trigger] segs[i][j] != b,
    ensures
        forall|j: int| 0 <= j < join_segments(segs).len() ==> #[trigger] join_segments(segs)[j]
            != b,
    decreases segs.len(),
{
    let out = join_segments(segs);
    if segs.len() == 0 {
        assert forall|j: int| 0 <= j < out.len() implies #[trigger] out[j] != b by {}
    } else {
        let first = segs[0];
        let restj = if segs.len() == 1 {
            Seq::<u8>::empty()
        } else {
            join_segments(segs.drop_first())
        };
        if segs.len() > 1 {
            let rest = segs.drop_first();
            assert forall|i: int, j: int|
                0 <= i < rest.len() && 0 <= j < rest[i].len() implies #[trigger] rest[i][j]
                != b by {
                assert(rest[i] == segs[i + 1]);
            }
            lemma_join_no_byte(rest, b);
        }
        assert(out == seq![0x2fu8] + first + restj);
        assert forall|j: int| 0 <= j < out.len() implies #[trigger] out[j] != b by {
            if j == 0 {
            } else if j < 1 + first.len() {
                assert(out[j] == first[j - 1]);
            } else {
                assert(out[j] == restj[j - 1 - first.len()]);
            }
        }
    }
}

/// Joining undoes splitting: the serialised segments of `s` spell `/` + `s`.
proof fn lemma_join_split(s: Seq<u8>)
    ensures
        join_segments(split_segments(s)) == seq![0x2fu8] + s,
    decreases s.len(),
{
    lemma_find_byte(s, 0x2f);
    match find_byte(s, 0x2f) {
        Some(i) => {
            lemma_join_split(s.skip(i + 1));
            let segs = split_segments(s);
            let rest = split_segments(s.skip(i + 1));
            assert(rest.len() >= 1);
            assert(segs == seq![s.take(i)] + rest);
            assert(segs.len() >= 2);
            assert(segs[0] == s.take(i));
            assert(segs.drop_first() =~= rest);
            assert(join_segments(segs) == seq![0x2fu8] + s.take(i) + join_segments(rest));
            assert(seq![0x2fu8] + s.take(i) + (seq![0x2fu8] + s.skip(i + 1)) =~= seq![0x2fu8]
                + s);
        },
        None => {
            let segs = split_segments(s);
            assert(segs == seq![s]);
            assert(join_segments(segs) == seq![0x2fu8] + s + Seq::<u8>::empty());
            assert(seq![0x2fu8] + s + Seq::<u8>::empty() =~= seq![0x2fu8] + s);
        },
    }
}

/// A canonical segment: not a dot spelling, already percent-encoded, free
/// of separators and of the bytes that open a query or fragment.
pub open spec fn canon_seg(s: Seq<u8>) -> bool {
    !is_dot1(s) && !is_dot2(s) && pct_encode(s, |b: u8| path_encode_byte(b)) == s && (forall|
        j: int,
    |
        0 <= j < s.len() ==> #[trigger] s[j] != 0x2f && s[j] != 0x5c && s[j] != 0x23 && s[j]
            != 0x3f)
}

/// A resolved path before the protocol-relative check: a leading slash,
/// reserved bytes only as separators, and canonical segments.
pub open spec fn canon_body(p: Seq<u8>) -> bool {
    p.len() > 0 && p[0] == 0x2f && (forall|j: int|
        0 <= j < p.len() ==> #[trigger] p[j] != 0x5c && p[j] != 0x23 && p[j] != 0x3f) && (forall|
        i: int,
    |
        0 <= i < split_segments(p.skip(1)).len() ==> canon_seg(
            #[trigger] split_segments(p.skip(1))[i],
        ))
}

/// A canonical path as the resolver returns it.
pub open spec fn canon_path(p: Seq<u8>) -> bool {
    canon_body(p) && !double_slash_prefix(p)
}

pub open spec fn canon_query_opt(q: Option<Seq<u8>>) -> bool {
    match q {
        Some(v) => pct_encode(v, |b: u8| query_encode_byte(b)) == v && (forall|j: int|
            0 <= j < v.len() ==> #[trigger] v[j] != 0x23),
        None => true,
    }
}

pub open spec fn canon_frag_opt(f: Option<Seq<u8>>) -> bool {
    match f {
        Some(v) => pct_encode(v, |b: u8| frag_encode_byte(b)) == v,
        None => true,
    }
}

proof fn lemma_canon_seg_empty()
    ensures
        canon_seg(Seq::<u8>::empty()),
{
    assert(Seq::<u8>::empty().len() == 0);
    assert(seq![0x2eu8].len() == 1);
    assert(Seq::<u8>::empty() != seq![0x2eu8]);
    assert(pct_encode(Seq::<u8>::empty(), |b: u8| path_encode_byte(b)) == Seq::<u8>::empty());
}

proof fn lemma_canon_root()
    ensures
        canon_path(seq![0x2fu8]),
{
    let p = seq![0x2fu8];
    assert(p.skip(1) =~= Seq::<u8>::empty());
    lemma_find_byte(Seq::<u8>::empty(), 0x2f);
    assert(split_segments(Seq::<u8>::empty()) == seq![Seq::<u8>::empty()]);
    lemma_canon_seg_empty();
    assert forall|i: int|
        0 <= i < split_segments(p.skip(1)).len() implies canon_seg(
        #[trigger] split_segments(p.skip(1))[i],
    ) by {
        assert(split_segments(p.skip(1))[i] == Seq::<u8>::empty());
    }
}

/// Everything `resolve_abs_path` produces is canonical up to the
/// protocol-relative check.
proof fn lemma_resolve_abs_canon(x: Seq<u8>)
    requires
        x.len() > 0,
    ensures
        canon_body(resolve_abs_path(x)),
{
    let penc = |b: u8| path_encode_byte(b);
    assert(unify_slashes(x).len() == x.len());
    let raw = split_segments(unify_slashes(x).skip(1));
    let encoded = raw.map_values(|seg: Seq<u8>| pct_encode(seg, penc));
    let cleaned = remove_dots(Seq::empty(), encoded);
    let p = resolve_abs_path(x);
    assert(p == join_segments(cleaned));
    lemma_join_starts_slash(cleaned);
    // every encoded segment that is not a dot spelling is canonical
    let u = unify_slashes(x).skip(1);
    lemma_split_no_slash(u);
    assert(u.len() == x.len() - 1);
    assert forall|j: int| 0 <= j < u.len() implies #[trigger] u[j] != 0x5c by {
        assert(u[j] == unify_slashes(x)[j + 1]);
        assert(unify_slashes(x)[j + 1] == (if x[j + 1] == 0x5c {
            0x2fu8
        } else {
            x[j + 1]
        }));
    }
    lemma_split_bytes_no(u, 0x5c);
    assert forall|i: int|
        0 <= i < encoded.len() && !is_dot1(#[trigger] encoded[i]) && !is_dot2(encoded[i]) implies
        canon_seg(encoded[i]) by {
        assert(encoded[i] == pct_encode(raw[i], penc));
        lemma_pct_encode_fixpoint(raw[i], penc);
        lemma_pct_encode_no_byte(raw[i], penc, 0x2f);
        lemma_pct_encode_no_byte(raw[i], penc, 0x5c);
        lemma_pct_encode_no_byte(raw[i], penc, 0x23);
        lemma_pct_encode_no_byte(raw[i], penc, 0x3f);
    }
    lemma_canon_seg_empty();
    lemma_remove_dots_preserves(Seq::empty(), encoded, |seg: Seq<u8>| canon_seg(seg));
    // the joined path has no reserved bytes
    assert forall|i: int, j: int|
        0 <= i < cleaned.len() && 0 <= j < cleaned[i].len() implies #[trigger] cleaned[i][j]
        != 0x5c && cleaned[i][j] != 0x23 && cleaned[i][j] != 0x3f && cleaned[i][j] != 0x2f by {
        assert(canon_seg(cleaned[i]));
    }
    lemma_join_no_byte(cleaned, 0x5c);
    lemma_join_no_byte(cleaned, 0x23);
    lemma_join_no_byte(cleaned, 0x3f);
    // and its segments are the cleaned list (or the single empty segment)
    if cleaned.len() == 0 {
        assert(p == seq![0x2fu8]);
        lemma_canon_root();
    } else {
        lemma_split_join(cleaned);
        assert(p.skip(1) =~= join_segments(cleaned).skip(1));
        assert forall|i: int|
            0 <= i < split_segments(p.skip(1)).len() implies canon_seg(
            #[trigger] split_segments(p.skip(1))[i],
        ) by {
            assert(split_segments(p.skip(1)) == cleaned);
        }
    }
}

/// A canonical path resolves to itself.
proof fn lemma_resolve_abs_fixpoint(p: Seq<u8>)
    requires
        canon_body(p),
    ensures
        resolve_abs_path(p) == p,
{
    let penc = |b: u8| path_encode_byte(b);
    assert(unify_slashes(p) =~= p);
    let segs = split_segments(p.skip(1));
    let encoded = segs.map_values(|seg: Seq<u8>| pct_encode(seg, penc));
    assert forall|i: int| 0 <= i < encoded.len() implies #[trigger] encoded[i] == segs[i] by {
        assert(canon_seg(segs[i]));
        assert(encoded[i] == pct_encode(segs[i], penc));
    }
    assert(encoded =~= segs);
    assert forall|i: int|
        0 <= i < segs.len() implies !is_dot1(#[trigger] segs[i]) && !is_dot2(segs[i]) by {
        assert(canon_seg(segs[i]));
    }
    lemma_remove_dots_identity(Seq::empty(), segs);
    assert(remove_dots(Seq::empty(), segs) =~= segs);
    lemma_join_split(p.skip(1));
    assert(seq![0x2fu8] + p.skip(1) =~= p);
}

/// Everything a successful resolution hands back is canonical.
proof fn lemma_resolve_ref_canon(bpath: Seq<u8>, bquery: Option<Seq<u8>>, t: Seq<u8>)
    requires
        canon_path(bpath),
        canon_query_opt(bquery),
    ensures
        match resolve_ref(bpath, bquery, t) {
            Some(triple) => canon_path(triple.0) && canon_query_opt(triple.1) && canon_frag_opt(
                triple.2,
            ),
            None => true,
        },
{
    let t1 = match scheme_len(t) {
        Some(i) => if is_http_scheme(t.take(i)) {
            Some(t.skip(i + 1))
        } else {
            None
        },
        None => Some(t),
    };
    match t1 {
        None => {},
        Some(r) => {
            let body = before_byte(r, 0x23);
            match after_byte(r, 0x23) {
                Some(fr) => {
                    lemma_pct_encode_fixpoint(fr, |b: u8| frag_encode_byte(b));
                },
                None => {},
            }
            match after_byte(body, 0x3f) {
                Some(qr) => {
                    lemma_pct_encode_fixpoint(qr, |b: u8| query_encode_byte(b));
                    lemma_pct_encode_no_byte(qr, |b: u8| query_encode_byte(b), 0x23);
                },
                None => {},
            }
            let pathpart = before_byte(body, 0x3f);
            let n = count_leading_slashes(pathpart);
            lemma_count_leading_slashes(pathpart);
            if n >= 2 {
                let rest = pathpart.skip(n);
                let tail = rest.skip(until_slash(rest));
                if tail.len() == 0 {
                    lemma_canon_root();
                } else {
                    lemma_resolve_abs_canon(tail);
                }
            } else if n == 1 {
                lemma_resolve_abs_canon(pathpart);
            } else if pathpart.len() == 0 {
            } else {
                let merged = merge_paths(bpath, pathpart);
                lemma_cut_after_last_slash(bpath);
                assert(merged.len() > 0);
                lemma_resolve_abs_canon(merged);
            }
        },
    }
}

/// Resolving a canonical target against any base returns it unchanged.
#[verifier::rlimit(60)]
proof fn lemma_reparse(bpath: Seq<u8>, bquery: Option<Seq<u8>>, p: Seq<u8>, q: Option<Seq<u8>>, f: Option<Seq<u8>>)
    requires
        canon_path(p),
        canon_query_opt(q),
        canon_frag_opt(f),
    ensures
        resolve_ref(bpath, bquery, assemble_target(p, q, f)) == Some((p, q, f)),
{
    let out = assemble_target(p, q, f);
    let qpart = match q {
        Some(qv) => seq![0x3fu8] + qv,
        None => Seq::<u8>::empty(),
    };
    let fpart = match f {
        Some(fv) => seq![0x23u8] + fv,
        None => Seq::<u8>::empty(),
    };
    assert(out =~= (p + qpart) + fpart);
    assert(out[0] == p[0]);
    assert(!is_alpha(0x2f));
    assert(scheme_len(out) is None);
    let bodye = p + qpart;
    // everything before the fragment is free of `#`
    assert forall|j: int| 0 <= j < bodye.len() implies #[trigger] bodye[j] != 0x23 by {
        if j < p.len() {
            assert(bodye[j] == p[j]);
        } else {
            assert(bodye[j] == qpart[j - p.len()]);
            match q {
                Some(qv) => {
                    if j > p.len() {
                        assert(qpart[j - p.len()] == qv[j - p.len() - 1]);
                    }
                },
                None => {},
            }
        }
    }
    lemma_find_byte(out, 0x23);
    match f {
        Some(fv) => {
            let l = bodye.len() as int;
            assert(out[l] == fpart[0]);
            match find_byte(out, 0x23) {
                Some(i) => {
                    if i < l {
                        assert(out[i] == bodye[i]);
                        assert(false);
                    }
                    if i > l {
                        assert(false);
                    }
                    assert(out.take(l) =~= bodye);
                    assert(out.skip(l + 1) =~= fv);
                    assert(before_byte(out, 0x23) == bodye);
                    assert(after_byte(out, 0x23) == Some(fv));
                },
                None => {
                    assert(out[l] == 0x23);
                    assert(false);
                },
            }
        },
        None => {
            assert(out =~= bodye);
            match find_byte(out, 0x23) {
                Some(i) => {
                    assert(out[i] == bodye[i]);
                    assert(false);
                },
                None => {},
            }
        },
    }
    // everything before the query is free of `?`
    lemma_find_byte(bodye, 0x3f);
    match q {
        Some(qv) => {
            let l = p.len() as int;
            assert(bodye[l] == qpart[0]);
            match find_byte(bodye, 0x3f) {
                Some(i) => {
                    if i < l {
                        assert(bodye[i] == p[i]);
                        assert(false);
                    }
                    if i > l {
                        assert(false);
                    }
                    assert(bodye.take(l) =~= p);
                    assert(bodye.skip(l + 1) =~= qv);
                    assert(before_byte(bodye, 0x3f) == p);
                    assert(after_byte(bodye, 0x3f) == Some(qv));
                },
                None => {
                    assert(bodye[l] == 0x3f);
                    assert(false);
                },
            }
            lemma_pct_encode_fixpoint(qv, |b: u8| query_encode_byte(b));
        },
        None => {
            assert(bodye =~= p);
            match find_byte(bodye, 0x3f) {
                Some(i) => {
                    assert(bodye[i] == p[i]);
                    assert(false);
                },
                None => {},
            }
        },
    }
    match f {
        Some(fv) => {
            lemma_pct_encode_fixpoint(fv, |b: u8| frag_encode_byte(b));
        },
        None => {},
    }
    // exactly one leading slash
    assert(is_slash(p[0]));
    if p.len() == 1 {
        assert(p.drop_first() =~= Seq::<u8>::empty());
        assert(count_leading_slashes(p.drop_first()) == 0);
        assert(count_leading_slashes(p) == 1);
    } else {
        assert(p.len() >= 2);
        assert(!double_slash_prefix(p) && p[0] == 0x2f);
        assert(p[1] != 0x2f);
        assert(canon_body(p));
        assert(p[1] != 0x5c && p[1] != 0x23 && p[1] != 0x3f);
        assert(p.drop_first()[0] == p[1]);
        assert(count_leading_slashes(p.drop_first()) == 0);
        assert(count_leading_slashes(p) == 1);
    }
    lemma_resolve_abs_fixpoint(p);
}

/// Resolution is idempotent: a target that normalised once normalises to
/// itself, against the same base.
pub proof fn lemma_normalize_idempotent(base: Seq<u8>, target: Seq<u8>)
    ensures
        match normalize_spec(base, target) {
            Some(out) => normalize_spec(base, out) == Some(out),
            None => true,
        },
{
    lemma_canon_root();
    match resolve_ref(root_path(), None, base) {
        None => {},
        Some(bres) => {
            lemma_resolve_ref_canon(root_path(), None, base);
            match resolve_ref(bres.0, bres.1, target) {
                None => {},
                Some(triple) => {
                    lemma_resolve_ref_canon(bres.0, bres.1, target);
                    lemma_reparse(bres.0, bres.1, triple.0, triple.1, triple.2);
                },
            }
        },
    }
}

/// ASCII bytes form valid UTF-8.
pub proof fn lemma_ascii_valid_utf8(s: Seq<u8>)
    requires
        all_ascii(s),
    ensures
        vstd::utf8::valid_utf8(s),
{
    assert(vstd::utf8::valid_utf8(s.subrange(0, 0)));
    assert(vstd::utf8::partial_valid_utf8(s, 0));
    assert forall|i: int|
        0 <= 0 <= i < s.len() <= s.len() implies #[trigger] vstd::utf8::is_leading_byte_width_1(
        s[i],
    ) by {
        assert(s[i] < 0x80);
    }
    vstd::utf8::partial_valid_utf8_extend_ascii_block(s, 0, s.len() as int);
    assert(s.subrange(0, s.len() as int) =~= s);
}

/// Reassemble a resolved target into one byte vector.
fn assemble_exec(res: &ResolvedTarget) -> (r: Vec<u8>)
    ensures
        r@ == assemble_target(res.path@, ov(res.query), ov(res.frag)),
{
    let mut r: Vec<u8> = Vec::new();
    crate::text::push_all(&mut r, res.path.as_slice());
    match &res.query {
        Some(q) => {
            r.push(0x3f);
            crate::text::push_all(&mut r, q.as_slice());
        },
        None => {},
    }
    match &res.frag {
        Some(f) => {
            r.push(0x23);
            crate::text::push_all(&mut r, f.as_slice());
        },
        None => {},
    }
    proof {
        assert(r@ =~= assemble_target(res.path@, ov(res.query), ov(res.frag)));
    }
    r
}

proof fn lemma_assemble_ascii(p: Seq<u8>, q: Option<Seq<u8>>, f: Option<Seq<u8>>)
    requires
        all_ascii(p),
        all_ascii_opt(q),
        all_ascii_opt(f),
    ensures
        all_ascii(assemble_target(p, q, f)),
{
}

/// Resolve a redirect target against the request's own path.
///
/// `Some` carries the canonical same-origin form of the target (absolute
/// path, then query, then fragment); `None` means the target (or the base)
/// cannot be shown to stay on the service's own origin and must be refused.
pub fn normalize_path(base: &str, path: &str) -> (r: Option<String>)
    ensures
        match r {
            Some(out) => normalize_spec(
                vstd::utf8::encode_utf8(base@),
                vstd::utf8::encode_utf8(path@),
            ) == Some(vstd::utf8::encode_utf8(out@)),
            None => normalize_spec(
                vstd::utf8::encode_utf8(base@),
                vstd::utf8::encode_utf8(path@),
            ) is None,
        },
{
    let bb = base.as_bytes();
    let tb = path.as_bytes();
    let mut root: Vec<u8> = Vec::new();
    root.push(0x2f);
    proof {
        assert(root@ =~= root_path());
        assert(all_ascii(root@));
    }
    let base_res = match resolve_ref_exec(&root, None, bb) {
        Some(x) => x,
        None => {
            return None;
        },
    };
    let bq: Option<&Vec<u8>> = match &base_res.query {
        Some(v) => Some(v),
        None => None,
    };
    let res = match resolve_ref_exec(&base_res.path, bq, tb) {
        Some(x) => x,
        None => {
            return None;
        },
    };
    let out = assemble_exec(&res);
    proof {
        lemma_assemble_ascii(res.path@, ov(res.query), ov(res.frag));
        lemma_ascii_valid_utf8(out@);
    }
    match crate::text::string_from_utf8(out) {
        Some(s) => Some(s),
        None => {
            proof {
                assert(false);
            }
            None
        },
    }
}

/// Append one percent-encoded query parameter to a path, keeping any
/// parameters (and fragment) the path already carries.
pub fn add_query_to_path(path: &str, key: &str, value: &str) -> (r: Option<String>)
    ensures
        match r {
            Some(out) => add_query_spec(
                vstd::utf8::encode_utf8(path@),
                vstd::utf8::encode_utf8(key@),
                vstd::utf8::encode_utf8(value@),
            ) == Some(vstd::utf8::encode_utf8(out@)),
            None => add_query_spec(
                vstd::utf8::encode_utf8(path@),
                vstd::utf8::encode_utf8(key@),
                vstd::utf8::encode_utf8(value@),
            ) is None,
        },
{
    let pb = path.as_bytes();
    let mut root: Vec<u8> = Vec::new();
    root.push(0x2f);
    proof {
        assert(root@ =~= root_path());
        assert(all_ascii(root@));
    }
    let res = match resolve_ref_exec(&root, None, pb) {
        Some(x) => x,
        None => {
            return None;
        },
    };
    let mut pair = form_encode_exec(key.as_bytes());
    pair.push(0x3d);
    let vv = form_encode_exec(value.as_bytes());
    crate::text::push_all(&mut pair, vv.as_slice());
    let ghost pair_spec = form_encode(vstd::utf8::encode_utf8(key@)) + seq![0x3du8] + form_encode(
        vstd::utf8::encode_utf8(value@),
    );
    proof {
        assert(pair@ =~= pair_spec);
    }
    let newq: Vec<u8> = match &res.query {
        Some(qv) => {
            let mut nq = slice_to_vec(qv.as_slice());
            nq.push(0x26);
            crate::text::push_all(&mut nq, pair.as_slice());
            proof {
                assert(nq@ =~= qv@ + seq![0x26u8] + pair_spec);
            }
            nq
        },
        None => pair,
    };
    let mut out: Vec<u8> = Vec::new();
    crate::text::push_all(&mut out, res.path.as_slice());
    out.push(0x3f);
    crate::text::push_all(&mut out, newq.as_slice());
    match &res.frag {
        Some(f) => {
            out.push(0x23);
            crate::text::push_all(&mut out, f.as_slice());
        },
        None => {},
    }
    proof {
        assert(out@ =~= assemble_target(res.path@, Some(newq@), ov(res.frag)));
        lemma_form_encode_ascii(vstd::utf8::encode_utf8(key@));
        lemma_form_encode_ascii(vstd::utf8::encode_utf8(value@));
        assert(all_ascii(newq@));
        lemma_assemble_ascii(res.path@, Some(newq@), ov(res.frag));
        lemma_ascii_valid_utf8(out@);
    }
    match crate::text::string_from_utf8(out) {
        Some(s) => Some(s),
        None => {
            proof {
                assert(false);
            }
            None
        },
    }
}

} // verus!
