//! Package URLs: the SHA-256 digest they carry, matching by digest, and the
//! name and version they name.

use vstd::prelude::*;
use crate::text::{
    before_char, before_char_exec, chars_eq, chars_of, concat_chars, find, find_char,
    find_char_from, find_char_from_exec, find_from_exec, lemma_find_char_from_bound,
    push_char, rfind_char, rfind_char_exec, skip, starts_with, starts_with_exec, str_eq,
    string_of, string_of_range, take,
};

verus! {

/// The URL-encoded digest marker `@sha256%3A`.
pub open spec fn encoded_sha_marker() -> Seq<char> {
    seq!['@', 's', 'h', 'a', '2', '5', '6', '%', '3', 'A']
}

/// The plain digest marker `@sha256:`.
pub open spec fn plain_sha_marker() -> Seq<char> {
    seq!['@', 's', 'h', 'a', '2', '5', '6', ':']
}

/// `s` from `k` up to the first `c` after it, or to its end.
pub open spec fn until_char_from(s: Seq<char>, k: int, c: char) -> Seq<char> {
    match find_char_from(s, c, k) {
        Some(j) => s.subrange(k, j),
        None => s.skip(k),
    }
}

/// The SHA-256 digest that a package URL names: what follows the first
/// `@sha256%3A` (or, when there is none, the first `@sha256:`) up to the
/// query string.
pub open spec fn sha256_of(purl: Seq<char>) -> Option<Seq<char>> {
    match find(purl, encoded_sha_marker()) {
        Some(i) => Some(until_char_from(purl, i + 10, '?')),
        None => match find(purl, plain_sha_marker()) {
            Some(i) => Some(until_char_from(purl, i + 8, '?')),
            None => None,
        },
    }
}

/// Two package URLs both carry a digest, and it is the same.
pub open spec fn purls_match(a: Seq<char>, b: Seq<char>) -> bool {
    match (sha256_of(a), sha256_of(b)) {
        (Some(x), Some(y)) => x == y,
        _ => false,
    }
}

fn digest_after(cs: &[char], start: usize) -> (r: String)
    requires
        start <= cs@.len(),
    ensures
        r@ == until_char_from(cs@, start as int, '?'),
{
    match find_char_from_exec(cs, '?', start) {
        Some(q) => string_of_range(cs, start, q),
        None => string_of_range(cs, start, cs.len()),
    }
}

/// The SHA-256 digest that `purl` carries, if any.
pub fn extract_sha256_from_purl(purl: &str) -> (r: Option<String>)
    ensures
        r matches Some(h) ==> sha256_of(purl@) == Some(h@),
        r is None ==> sha256_of(purl@) is None,
{
    let cs = chars_of(purl);
    let encoded = chars_of("@sha256%3A");
    let plain = chars_of("@sha256:");
    proof {
        reveal_strlit("@sha256%3A");
        reveal_strlit("@sha256:");
        assert(encoded@ =~= encoded_sha_marker());
        assert(plain@ =~= plain_sha_marker());
    }
    let n = cs.len();
    if let Some(at) = find_from_exec(cs.as_slice(), encoded.as_slice(), 0) {
        assert(at + 10 <= n);
        return Some(digest_after(cs.as_slice(), at + 10));
    }
    if let Some(at) = find_from_exec(cs.as_slice(), plain.as_slice(), 0) {
        assert(at + 8 <= n);
        return Some(digest_after(cs.as_slice(), at + 8));
    }
    None
}

/// Both package URLs carry a SHA-256 digest, and the two are equal.
pub fn purls_match_by_sha256(purl1: &str, purl2: &str) -> (r: bool)
    ensures
        r == purls_match(purl1@, purl2@),
{
    match (extract_sha256_from_purl(purl1), extract_sha256_from_purl(purl2)) {
        (Some(hash1), Some(hash2)) => str_eq(hash1.as_str(), hash2.as_str()),
        _ => false,
    }
}

/// An ASCII hex digit, as a byte.
pub open spec fn hex_byte(b: u8) -> bool {
    (48 <= b <= 57) || (65 <= b <= 70) || (97 <= b <= 102)
}

/// The value of an ASCII hex digit.
pub open spec fn hex_value(b: u8) -> int {
    if b <= 57 {
        b - 48
    } else if b <= 70 {
        b - 55
    } else {
        b - 87
    }
}

/// Bytes with each `%` followed by two hex digits replaced by the byte
/// they spell; every other byte, a lone `%` too, is kept.
pub open spec fn percent_decoded_bytes(bs: Seq<u8>) -> Seq<u8>
    decreases bs.len(),
{
    if bs.len() == 0 {
        Seq::empty()
    } else if bs[0] == 37 && bs.len() >= 3 && hex_byte(bs[1]) && hex_byte(bs[2]) {
        seq![(hex_value(bs[1]) * 16 + hex_value(bs[2])) as u8] + percent_decoded_bytes(bs.skip(3))
    } else {
        seq![bs[0]] + percent_decoded_bytes(bs.skip(1))
    }
}

/// A string with percent-encoding undone over its UTF-8 bytes; `None` when
/// the decoded bytes are not UTF-8.
pub open spec fn url_decoded(s: Seq<char>) -> Option<Seq<char>> {
    let d = percent_decoded_bytes(vstd::utf8::encode_utf8(s));
    if vstd::utf8::valid_utf8(d) {
        Some(vstd::utf8::decode_utf8(d))
    } else {
        None
    }
}

/// Calls `urlencoding::decode`: each `%` followed by two hex digits (of
/// either case) becomes the byte they spell, every other byte is kept, and
/// the bytes must form UTF-8, else the error (here `None`). A string
/// without `%` comes back unchanged (the crate hands its input back).
#[verifier::external_body]
fn url_decode(s: &str) -> (r: Option<String>)
    ensures
        match url_decoded(s@) {
            Some(d) => r is Some && r->0@ == d,
            None => r is None,
        },
        !s@.contains('%') ==> r is Some && r->0@ == s@,
{
    match urlencoding::decode(s) {
        Ok(d) => Some(d.into_owned()),
        Err(_) => None,
    }
}

/// The percent-decoded form of `s`, or `s` itself when that is not UTF-8.
pub open spec fn decoded_or_kept(s: Seq<char>) -> Seq<char> {
    match url_decoded(s) {
        Some(d) => d,
        None => s,
    }
}

/// Percent-decodes `s`, keeping it as it is when the result would not be UTF-8.
pub fn decode_or_keep(s: &str) -> (r: String)
    ensures
        r@ == decoded_or_kept(s@),
{
    match url_decode(s) {
        Some(d) => d,
        None => s.to_owned(),
    }
}

/// `pkg:golang/`, the prefix of Go package URLs.
pub open spec fn golang_prefix() -> Seq<char> {
    seq!['p', 'k', 'g', ':', 'g', 'o', 'l', 'a', 'n', 'g', '/']
}

/// `epoch`, the qualifier that carries an RPM epoch.
pub open spec fn epoch_key() -> Seq<char> {
    seq!['e', 'p', 'o', 'c', 'h']
}

/// The value of a `key=value` pair whose key is `epoch`.
pub open spec fn epoch_of_pair(pair: Seq<char>) -> Option<Seq<char>> {
    match find_char(pair, '=') {
        Some(e) => if pair.take(e) == epoch_key() {
            Some(pair.skip(e + 1))
        } else {
            None
        },
        None => None,
    }
}

/// The value of the first `epoch=` pair among `&`-separated qualifiers.
pub open spec fn epoch_in(qs: Seq<char>) -> Option<Seq<char>>
    decreases qs.len(),
{
    match epoch_of_pair(before_char(qs, '&')) {
        Some(v) => Some(v),
        None => match find_char(qs, '&') {
            Some(a) => {
                proof {
                    lemma_find_char_from_bound(qs, '&', 0);
                }
                epoch_in(qs.skip(a + 1))
            },
            None => None,
        },
    }
}

/// The name of a Go package: the path after the type, with a non-empty
/// subpath appended.
pub open spec fn golang_name(name_part: Seq<char>, subpath: Option<Seq<char>>) -> Seq<char> {
    let base = match find_char(name_part, '/') {
        Some(s) => name_part.skip(s + 1),
        None => name_part,
    };
    match subpath {
        Some(sp) => if sp.len() > 0 {
            base + seq!['/'] + sp
        } else {
            base
        },
        None => base,
    }
}

/// The name of any other package: what follows the last `/`.
pub open spec fn leaf_name(name_part: Seq<char>) -> Seq<char> {
    match rfind_char(name_part, '/') {
        Some(s) => name_part.skip(s + 1),
        None => name_part,
    }
}

/// The still encoded name of a package, by package type.
pub open spec fn raw_name(name_part: Seq<char>, subpath: Option<Seq<char>>) -> Seq<char> {
    if starts_with(name_part, golang_prefix()) {
        golang_name(name_part, subpath)
    } else {
        leaf_name(name_part)
    }
}

/// The subpath of a versioned package URL: after `#` in the version, else
/// after `#` in the qualifiers.
pub open spec fn versioned_subpath(version_raw: Seq<char>, qualifiers: Option<Seq<char>>) -> Option<
    Seq<char>,
> {
    match find_char(version_raw, '#') {
        Some(h) => Some(version_raw.skip(h + 1)),
        None => match qualifiers {
            Some(qs) => match find_char(qs, '#') {
                Some(h) => Some(qs.skip(h + 1)),
                None => None,
            },
            None => None,
        },
    }
}

/// The encoded name, encoded version and epoch of a package URL whose last
/// `@` stands at `at`.
pub open spec fn versioned_parts(purl: Seq<char>, at: int) -> (Seq<char>, Seq<char>, Option<
    Seq<char>,
>) {
    let name_part = purl.take(at);
    let rest = purl.skip(at + 1);
    let version_raw = before_char(rest, '?');
    let qualifiers = match find_char(rest, '?') {
        Some(q) => Some(rest.skip(q + 1)),
        None => None,
    };
    let epoch = match qualifiers {
        Some(qs) => epoch_in(before_char(qs, '#')),
        None => None,
    };
    (
        raw_name(name_part, versioned_subpath(version_raw, qualifiers)),
        before_char(version_raw, '#'),
        epoch,
    )
}

/// The encoded name of a package URL without a version.
pub open spec fn unversioned_name(purl: Seq<char>) -> Seq<char> {
    let clean = before_char(purl, '?');
    let bare = before_char(clean, '#');
    let subpath = match find_char(clean, '#') {
        Some(h) => Some(clean.skip(h + 1)),
        None => match find_char(purl, '#') {
            Some(h) => Some(before_char(purl.skip(h + 1), '?')),
            None => None,
        },
    };
    raw_name(bare, subpath)
}

/// A version with its epoch, if any, in front: `epoch:version`.
pub open spec fn with_epoch(epoch: Option<Seq<char>>, version: Seq<char>) -> Seq<char> {
    match epoch {
        Some(e) => e + seq![':'] + version,
        None => version,
    }
}

/// The still encoded parts of a package URL: its name, and, when it has an
/// `@`, its version and epoch.
pub open spec fn purl_parts_of(purl: Seq<char>) -> (Seq<char>, Option<(Seq<char>, Option<Seq<char>>)>) {
    match rfind_char(purl, '@') {
        Some(at) => {
            let (n, v, e) = versioned_parts(purl, at);
            (n, Some((v, e)))
        },
        None => (unversioned_name(purl), None),
    }
}

/// The name and version that a package URL names, both percent-decoded, the
/// version prefixed with its epoch; the version is empty when there is no `@`.
pub open spec fn name_version_of(purl: Seq<char>) -> (Seq<char>, Seq<char>) {
    let (n, ver) = purl_parts_of(purl);
    match ver {
        Some((v, e)) => (decoded_or_kept(n), with_epoch(e, decoded_or_kept(v))),
        None => (decoded_or_kept(n), Seq::empty()),
    }
}

/// The still encoded parts of a package URL.
pub struct PurlParts {
    /// The name, before percent-decoding.
    pub name: String,
    /// The version before percent-decoding, and the epoch; `None` without `@`.
    pub version: Option<(String, Option<String>)>,
}

fn epoch_of_pair_exec(pair: &[char]) -> (r: Option<Vec<char>>)
    ensures
        r matches Some(v) ==> epoch_of_pair(pair@) == Some(v@),
        r is None ==> epoch_of_pair(pair@) is None,
{
    let key = chars_of("epoch");
    proof {
        reveal_strlit("epoch");
        assert(key@ =~= epoch_key());
    }
    match find_char_from_exec(pair, '=', 0) {
        Some(e) => {
            let k = take(pair, e);
            if chars_eq(k.as_slice(), key.as_slice()) {
                Some(skip(pair, e + 1))
            } else {
                None
            }
        },
        None => None,
    }
}

fn epoch_in_exec(qs: &[char]) -> (r: Option<Vec<char>>)
    ensures
        r matches Some(v) ==> epoch_in(qs@) == Some(v@),
        r is None ==> epoch_in(qs@) is None,
    decreases qs@.len(),
{
    let first = before_char_exec(qs, '&');
    match epoch_of_pair_exec(first.as_slice()) {
        Some(v) => Some(v),
        None => match find_char_from_exec(qs, '&', 0) {
            Some(a) => {
                let rest = skip(qs, a + 1);
                epoch_in_exec(rest.as_slice())
            },
            None => None,
        },
    }
}

fn raw_name_exec(name_part: &[char], subpath: &Option<Vec<char>>) -> (r: Vec<char>)
    ensures
        r@ == raw_name(name_part@, opt_chars(*subpath)),
{
    let prefix = chars_of("pkg:golang/");
    proof {
        reveal_strlit("pkg:golang/");
        assert(prefix@ =~= golang_prefix());
    }
    if starts_with_exec(name_part, prefix.as_slice()) {
        let base = match find_char_from_exec(name_part, '/', 0) {
            Some(s) => skip(name_part, s + 1),
            None => skip(name_part, 0),
        };
        assert(name_part@.skip(0) == name_part@);
        match subpath {
            Some(sp) => if sp.len() > 0 {
                let mut with_slash = base;
                with_slash.push('/');
                concat_chars(with_slash.as_slice(), sp.as_slice())
            } else {
                base
            },
            None => base,
        }
    } else {
        assert(name_part@.skip(0) == name_part@);
        match rfind_char_exec(name_part, '/') {
            Some(s) => skip(name_part, s + 1),
            None => skip(name_part, 0),
        }
    }
}

/// The characters of an optional vector.
pub open spec fn opt_chars(o: Option<Vec<char>>) -> Option<Seq<char>> {
    match o {
        Some(v) => Some(v@),
        None => None,
    }
}

/// Splits a package URL into its still encoded name, version and epoch.
pub fn purl_name_parts(purl: &str) -> (r: PurlParts)
    ensures
        r.name@ == purl_parts_of(purl@).0,
        match (r.version, purl_parts_of(purl@).1) {
            (Some((v, e)), Some((sv, se))) => v@ == sv && match (e, se) {
                (Some(x), Some(y)) => x@ == y,
                (None, None) => true,
                _ => false,
            },
            (None, None) => true,
            _ => false,
        },
{
    let cs = chars_of(purl);
    match rfind_char_exec(cs.as_slice(), '@') {
        Some(at) => {
            let name_part = take(cs.as_slice(), at);
            let rest = skip(cs.as_slice(), at + 1);
            let version_raw = before_char_exec(rest.as_slice(), '?');
            let qualifiers = match find_char_from_exec(rest.as_slice(), '?', 0) {
                Some(q) => Some(skip(rest.as_slice(), q + 1)),
                None => None,
            };
            let ghost qv = opt_chars(qualifiers);
            let subpath = match find_char_from_exec(version_raw.as_slice(), '#', 0) {
                Some(h) => Some(skip(version_raw.as_slice(), h + 1)),
                None => match &qualifiers {
                    Some(qs) => match find_char_from_exec(qs.as_slice(), '#', 0) {
                        Some(h) => Some(skip(qs.as_slice(), h + 1)),
                        None => None,
                    },
                    None => None,
                },
            };
            assert(opt_chars(subpath) == versioned_subpath(version_raw@, qv));
            let epoch = match &qualifiers {
                Some(qs) => {
                    let head = before_char_exec(qs.as_slice(), '#');
                    epoch_in_exec(head.as_slice())
                },
                None => None,
            };
            let name = raw_name_exec(name_part.as_slice(), &subpath);
            let version = before_char_exec(version_raw.as_slice(), '#');
            let epoch_s = match epoch {
                Some(e) => Some(string_of(e.as_slice())),
                None => None,
            };
            PurlParts {
                name: string_of(name.as_slice()),
                version: Some((string_of(version.as_slice()), epoch_s)),
            }
        },
        None => {
            let clean = before_char_exec(cs.as_slice(), '?');
            let bare = before_char_exec(clean.as_slice(), '#');
            let subpath = match find_char_from_exec(clean.as_slice(), '#', 0) {
                Some(h) => Some(skip(clean.as_slice(), h + 1)),
                None => match find_char_from_exec(cs.as_slice(), '#', 0) {
                    Some(h) => {
                        let after = skip(cs.as_slice(), h + 1);
                        Some(before_char_exec(after.as_slice(), '?'))
                    },
                    None => None,
                },
            };
            let name = raw_name_exec(bare.as_slice(), &subpath);
            PurlParts { name: string_of(name.as_slice()), version: None }
        },
    }
}

/// A version with its epoch, if any, in front: `epoch:version`.
pub fn join_epoch(epoch: &Option<String>, version: String) -> (r: String)
    ensures
        r@ == with_epoch(
            match epoch {
                Some(e) => Some(e@),
                None => None,
            },
            version@,
        ),
{
    match epoch {
        Some(e) => {
            let mut r = e.clone();
            push_char(&mut r, ':');
            r.append(version.as_str());
            r
        },
        None => version,
    }
}

/// The name and version that a package URL names: type-aware name (Go keeps
/// the module path and subpath, other types the last path segment), both
/// percent-decoded, the version prefixed with its RPM epoch; the version is
/// empty when the URL has no `@`.
pub fn extract_name_version_from_purl(purl: &str) -> (r: (String, String))
    ensures
        r.0@ == name_version_of(purl@).0,
        r.1@ == name_version_of(purl@).1,
{
    let parts = purl_name_parts(purl);
    let name = decode_or_keep(parts.name.as_str());
    match parts.version {
        Some((v, e)) => {
            let version = join_epoch(&e, decode_or_keep(v.as_str()));
            (name, version)
        },
        None => (name, String::new()),
    }
}

/// Law: matching by digest is symmetric, and a package URL with a digest
/// matches itself.
pub proof fn law_purls_match_symmetric(a: Seq<char>, b: Seq<char>)
    ensures
        purls_match(a, b) == purls_match(b, a),
        sha256_of(a) is Some ==> purls_match(a, a),
{
}

/// Law: in a Go package URL `pkg:golang/P@V?Q#S` the subpath `S` that
/// follows the qualifiers belongs to the name: the name is `P/S`
/// (percent-decoded), the version `V` (percent-decoded, after the epoch that
/// `Q` carries, if any); where `V` and `Q` hold no `#`, `?` or `@`, `P` and
/// `S` no `@`, and `S` is not empty.
pub proof fn law_go_subpath_after_qualifiers(
    purl: Seq<char>,
    p: Seq<char>,
    v: Seq<char>,
    q: Seq<char>,
    s: Seq<char>,
)
    requires
        purl == golang_prefix() + p + seq!['@'] + v + seq!['?'] + q + seq!['#'] + s,
        !p.contains('@'),
        !v.contains('@') && !v.contains('?') && !v.contains('#'),
        !q.contains('@') && !q.contains('?') && !q.contains('#'),
        !s.contains('@'),
        s.len() > 0,
    ensures
        purl_parts_of(purl).0 == p + seq!['/'] + s,
        name_version_of(purl) == (decoded_or_kept(p + seq!['/'] + s), with_epoch(epoch_in(q), decoded_or_kept(v))),
{
    let pre = golang_prefix();
    let np = pre + p;
    let rest = v + seq!['?'] + q + seq!['#'] + s;
    let at = np.len() as int;
    assert(purl =~= np + seq!['@'] + rest);
    assert forall|j: int| at < j < purl.len() implies purl[j] != '@' by {
        let r = j - at - 1;
        assert(purl[j] == rest[r]);
        if r < v.len() {
            assert(rest[r] == v[r]);
        } else if r == v.len() {
        } else if r < v.len() + 1 + q.len() {
            assert(rest[r] == q[r - v.len() - 1]);
        } else if r == v.len() + 1 + q.len() {
        } else {
            assert(rest[r] == s[r - v.len() - 2 - q.len()]);
        }
    }
    crate::text::lemma_rfind_char_last(purl, '@', at);
    assert(purl.take(at) =~= np);
    assert(purl.skip(at + 1) =~= rest);
    assert forall|j: int| 0 <= j < v.len() implies rest[j] != '?' by {
        assert(rest[j] == v[j]);
    }
    crate::text::lemma_find_char_first(rest, '?', v.len() as int);
    assert(before_char(rest, '?') =~= v);
    let quals = q + seq!['#'] + s;
    assert(rest.skip(v.len() as int + 1) =~= quals);
    crate::text::lemma_find_char_absent(v, '#');
    assert forall|j: int| 0 <= j < q.len() implies quals[j] != '#' by {
        assert(quals[j] == q[j]);
    }
    crate::text::lemma_find_char_first(quals, '#', q.len() as int);
    assert(quals.skip(q.len() as int + 1) =~= s);
    assert(before_char(quals, '#') =~= q);
    assert(versioned_subpath(v, Some(quals)) == Some(s));
    assert(np.take(pre.len() as int) =~= pre);
    assert(starts_with(np, pre));
    assert forall|j: int| 0 <= j < 10 implies np[j] != '/' by {
        assert(np[j] == pre[j]);
    }
    assert(np[10] == '/');
    crate::text::lemma_find_char_first(np, '/', 10);
    assert(np.skip(11) =~= p);
    assert(raw_name(np, Some(s)) == p + seq!['/'] + s);
    assert(versioned_parts(purl, at) == (p + seq!['/'] + s, v, epoch_in(q)));
}

/// Law: in a Go package URL `pkg:golang/P@V#S` the subpath `S` that
/// follows the version belongs to the name: the name is `P/S`
/// (percent-decoded) and the version `V` (percent-decoded); where `V`
/// holds no `#`, `?` or `@`, `P` no `@`, `S` no `@` or `?`, and `S` is not
/// empty.
pub proof fn law_go_subpath_after_version(purl: Seq<char>, p: Seq<char>, v: Seq<char>, s: Seq<char>)
    requires
        purl == golang_prefix() + p + seq!['@'] + v + seq!['#'] + s,
        !p.contains('@'),
        !v.contains('@') && !v.contains('?') && !v.contains('#'),
        !s.contains('@') && !s.contains('?'),
        s.len() > 0,
    ensures
        purl_parts_of(purl).0 == p + seq!['/'] + s,
        name_version_of(purl) == (decoded_or_kept(p + seq!['/'] + s), decoded_or_kept(v)),
{
    let pre = golang_prefix();
    let np = pre + p;
    let rest = v + seq!['#'] + s;
    let at = np.len() as int;
    assert(purl =~= np + seq!['@'] + rest);
    assert forall|j: int| at < j < purl.len() implies purl[j] != '@' by {
        let r = j - at - 1;
        assert(purl[j] == rest[r]);
        if r < v.len() {
            assert(rest[r] == v[r]);
        } else if r > v.len() {
            assert(rest[r] == s[r - v.len() - 1]);
        }
    }
    crate::text::lemma_rfind_char_last(purl, '@', at);
    assert(purl.take(at) =~= np);
    assert(purl.skip(at + 1) =~= rest);
    assert forall|j: int| 0 <= j < rest.len() implies rest[j] != '?' by {
        if j < v.len() {
            assert(rest[j] == v[j]);
        } else if j > v.len() {
            assert(rest[j] == s[j - v.len() - 1]);
        }
    }
    assert(!rest.contains('?'));
    crate::text::lemma_find_char_absent(rest, '?');
    assert forall|j: int| 0 <= j < v.len() implies rest[j] != '#' by {
        assert(rest[j] == v[j]);
    }
    crate::text::lemma_find_char_first(rest, '#', v.len() as int);
    assert(rest.skip(v.len() as int + 1) =~= s);
    assert(before_char(rest, '#') =~= v);
    assert(versioned_subpath(rest, None) == Some(s));
    assert(np.take(pre.len() as int) =~= pre);
    assert(starts_with(np, pre));
    assert forall|j: int| 0 <= j < 10 implies np[j] != '/' by {
        assert(np[j] == pre[j]);
    }
    assert(np[10] == '/');
    crate::text::lemma_find_char_first(np, '/', 10);
    assert(np.skip(11) =~= p);
    assert(raw_name(np, Some(s)) == p + seq!['/'] + s);
    assert(versioned_parts(purl, at) == (p + seq!['/'] + s, v, None::<Seq<char>>));
}

/// Law: in a package URL `A/N@V?Q` of any type but Go, the name is the last
/// path segment `N` and the version `V`, both percent-decoded, the version
/// after the epoch that `Q` carries, if any; where `A` does not start with
/// `pkg:golang/` and holds no `@`, `N` holds no `/` or `@`, `V` no `#`,
/// `?` or `@`, and `Q` no `#` or `@`.
pub proof fn law_leaf_name_and_epoch(purl: Seq<char>, a: Seq<char>, n: Seq<char>, v: Seq<char>, q: Seq<char>)
    requires
        purl == a + seq!['/'] + n + seq!['@'] + v + seq!['?'] + q,
        a.len() >= golang_prefix().len() && !starts_with(a, golang_prefix()),
        !a.contains('@'),
        !n.contains('/') && !n.contains('@'),
        !v.contains('@') && !v.contains('?') && !v.contains('#'),
        !q.contains('@') && !q.contains('#'),
    ensures
        name_version_of(purl) == (decoded_or_kept(n), with_epoch(epoch_in(q), decoded_or_kept(v))),
{
    let np = a + seq!['/'] + n;
    let rest = v + seq!['?'] + q;
    let at = np.len() as int;
    assert(purl =~= np + seq!['@'] + rest);
    assert forall|j: int| at < j < purl.len() implies purl[j] != '@' by {
        let r = j - at - 1;
        assert(purl[j] == rest[r]);
        if r < v.len() {
            assert(rest[r] == v[r]);
        } else if r > v.len() {
            assert(rest[r] == q[r - v.len() - 1]);
        }
    }
    crate::text::lemma_rfind_char_last(purl, '@', at);
    assert(purl.take(at) =~= np);
    assert(purl.skip(at + 1) =~= rest);
    assert forall|j: int| 0 <= j < v.len() implies rest[j] != '?' by {
        assert(rest[j] == v[j]);
    }
    crate::text::lemma_find_char_first(rest, '?', v.len() as int);
    assert(before_char(rest, '?') =~= v);
    assert(rest.skip(v.len() as int + 1) =~= q);
    crate::text::lemma_find_char_absent(v, '#');
    crate::text::lemma_find_char_absent(q, '#');
    assert(np.take(golang_prefix().len() as int) =~= a.take(golang_prefix().len() as int));
    assert(!starts_with(np, golang_prefix()));
    assert forall|j: int| a.len() < j < np.len() implies np[j] != '/' by {
        assert(np[j] == n[j - a.len() - 1]);
    }
    crate::text::lemma_rfind_char_last(np, '/', a.len() as int);
    assert(np.skip(a.len() as int + 1) =~= n);
    assert(versioned_parts(purl, at) == (n, v, epoch_in(q)));
}

/// Law: the epoch of `&`-separated qualifiers is the value of the first
/// `epoch=` pair: a first pair `epoch=E` gives `E`, and a first pair that
/// is not an `epoch=` pair is passed over.
pub proof fn law_epoch_first_pair(e: Seq<char>, x: Seq<char>, rest: Seq<char>)
    requires
        !e.contains('&'),
        !x.contains('&'),
    ensures
        epoch_in(epoch_key() + seq!['='] + e) == Some(e),
        epoch_in(epoch_key() + seq!['='] + e + seq!['&'] + rest) == Some(e),
        epoch_of_pair(x) is None ==> epoch_in(x + seq!['&'] + rest) == epoch_in(rest),
{
    let k = epoch_key() + seq!['='];
    let p1 = k + e;
    assert forall|j: int| 0 <= j < 5 implies p1[j] != '=' by {
        assert(p1[j] == epoch_key()[j]);
    }
    assert(p1[5] == '=');
    crate::text::lemma_find_char_first(p1, '=', 5);
    assert(p1.take(5) =~= epoch_key());
    assert(p1.skip(6) =~= e);
    assert forall|j: int| 0 <= j < p1.len() implies p1[j] != '&' by {
        if j < 5 {
            assert(p1[j] == epoch_key()[j]);
        } else if j > 5 {
            assert(p1[j] == e[j - 6]);
        }
    }
    assert(!p1.contains('&'));
    crate::text::lemma_find_char_absent(p1, '&');
    assert(epoch_of_pair(p1) == Some(e));
    let p2 = p1 + seq!['&'] + rest;
    crate::text::lemma_find_char_first(p2, '&', p1.len() as int);
    assert(p2.take(p1.len() as int) =~= p1);
    assert(before_char(p2, '&') == p1);
    let p3 = x + seq!['&'] + rest;
    crate::text::lemma_find_char_first(p3, '&', x.len() as int);
    assert(p3.take(x.len() as int) =~= x);
    assert(p3.skip(x.len() as int + 1) =~= rest);
}

} // verus!
