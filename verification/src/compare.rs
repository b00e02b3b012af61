//! Comparison of two hierarchy documents: one from the analysis service,
//! one from this tool. Both are flattened to nodes keyed by normalized id;
//! the nodes present in one only, and the differences of the nodes present
//! in both, are reported.

use vstd::prelude::*;
use vstd::string::StringSliceAdditionalSpecFns;
use crate::json::{
    as_text, elements, extract_json_string_array, lemma_member_elements_decrease, member,
    member_elements, member_text, text_or_empty, texts, JsonValue,
};
use crate::purl::{decode_or_keep, decoded_or_kept};
use crate::text::{
    decimal, decimal_string, before_char, before_char_exec, chars_of, dedup, dedup_strings, find, find_char,
    find_char_from_exec, find_from_exec, join, join_strings, str_eq, sort_strings,
    sorted, starts_with, starts_with_exec, lemma_sorted_ascending, lemma_dedup_strictly_ascending, strictly_ascending, string_of, string_of_range, strings_eq, opt_str, strs,
};

verus! {

/// A node of a flattened hierarchy.
#[derive(Debug)]
pub struct NormalizedNode {
    pub normalized_node_id: String,
    pub name: String,
    pub version: String,
    pub purl: Vec<String>,
    pub cpe: Vec<String>,
    pub published: String,
    pub relationship: Option<String>,
    pub depth: usize,
    pub sbom_id: Option<String>,
    pub document_id: Option<String>,
    pub warnings: Vec<String>,
    pub parent_normalized_id: Option<String>,
    pub children_normalized_ids: Vec<String>,
}

/// A flattened node as characters.
pub struct NormalizedView {
    pub id: Seq<char>,
    pub name: Seq<char>,
    pub version: Seq<char>,
    pub purl: Seq<Seq<char>>,
    pub cpe: Seq<Seq<char>>,
    pub published: Seq<char>,
    pub relationship: Option<Seq<char>>,
    pub depth: usize,
    pub sbom_id: Option<Seq<char>>,
    pub document_id: Option<Seq<char>>,
    pub warnings: Seq<Seq<char>>,
    pub parent: Option<Seq<char>>,
    pub children: Seq<Seq<char>>,
}

impl View for NormalizedNode {
    type V = NormalizedView;

    open spec fn view(&self) -> NormalizedView {
        NormalizedView {
            id: self.normalized_node_id@,
            name: self.name@,
            version: self.version@,
            purl: strs(self.purl@),
            cpe: strs(self.cpe@),
            published: self.published@,
            relationship: opt_str(self.relationship),
            depth: self.depth,
            sbom_id: opt_str(self.sbom_id),
            document_id: opt_str(self.document_id),
            warnings: strs(self.warnings@),
            parent: opt_str(self.parent_normalized_id),
            children: strs(self.children_normalized_ids@),
        }
    }
}

/// A difference in one field of a node present in both documents.
#[derive(Debug)]
pub struct FieldMismatch {
    pub node_id: String,
    pub field_name: String,
    pub api_value: String,
    pub tool_value: String,
}

/// A difference in where a node present in both documents stands.
#[derive(Debug)]
pub struct StructuralMismatch {
    pub node_id: String,
    pub mismatch_type: String,
    pub api_value: String,
    pub tool_value: String,
}

/// A difference as characters: node, what differs, and the two values.
pub struct MismatchView {
    pub node_id: Seq<char>,
    pub kind: Seq<char>,
    pub api_value: Seq<char>,
    pub tool_value: Seq<char>,
}

impl View for FieldMismatch {
    type V = MismatchView;

    open spec fn view(&self) -> MismatchView {
        MismatchView {
            node_id: self.node_id@,
            kind: self.field_name@,
            api_value: self.api_value@,
            tool_value: self.tool_value@,
        }
    }
}

impl View for StructuralMismatch {
    type V = MismatchView;

    open spec fn view(&self) -> MismatchView {
        MismatchView {
            node_id: self.node_id@,
            kind: self.mismatch_type@,
            api_value: self.api_value@,
            tool_value: self.tool_value@,
        }
    }
}

/// A decoded node id, cut at its qualifiers when it is a package URL.
pub open spec fn id_without_qualifiers(d: Seq<char>) -> Seq<char> {
    if starts_with(d, seq!['p', 'k', 'g', ':']) {
        before_char(d, '?')
    } else {
        d
    }
}

/// A node id with percent-encoding undone and, for a package URL, the
/// qualifiers dropped.
pub open spec fn normalized_id(s: Seq<char>) -> Seq<char> {
    id_without_qualifiers(decoded_or_kept(s))
}

/// Cuts a decoded node id at its qualifiers (`?`) when it is a package
/// URL (`pkg:`); keeps any other id.
pub fn strip_id_qualifiers(decoded: String) -> (r: String)
    ensures
        r@ == id_without_qualifiers(decoded@),
{
    let cs = chars_of(decoded.as_str());
    let prefix = chars_of("pkg:");
    proof {
        reveal_strlit("pkg:");
        assert(prefix@ =~= seq!['p', 'k', 'g', ':']);
    }
    if starts_with_exec(cs.as_slice(), prefix.as_slice()) {
        let cut = before_char_exec(cs.as_slice(), '?');
        string_of(cut.as_slice())
    } else {
        decoded
    }
}

/// Normalizes a node id: percent-decoded, and for a package URL (`pkg:`)
/// cut at its qualifiers.
pub fn normalize_node_id(node_id: &str) -> (r: String)
    ensures
        r@ == normalized_id(node_id@),
{
    strip_id_qualifiers(decode_or_keep(node_id))
}

/// The number of ASCII hex digits at the start of `h`, from `k` on.
pub open spec fn hex_run_from(h: Seq<char>, k: int) -> int
    decreases h.len() - k,
{
    if k < 0 || k >= h.len() {
        0
    } else if is_hex_digit(h[k]) {
        1 + hex_run_from(h, k + 1)
    } else {
        0
    }
}

/// `c` is an ASCII hex digit.
pub open spec fn is_hex_digit(c: char) -> bool {
    ('0' <= c && c <= '9') || ('a' <= c && c <= 'f') || ('A' <= c && c <= 'F')
}

/// The marker `sha256:`.
pub open spec fn sha_marker() -> Seq<char> {
    seq!['s', 'h', 'a', '2', '5', '6', ':']
}

/// The 64 hex digits after the first `sha256:` in `s`, if there are at
/// least 64 of them.
pub open spec fn sha256_digest(s: Seq<char>) -> Option<Seq<char>> {
    match find(s, sha_marker()) {
        Some(p) => if hex_run_from(s, p + 7) >= 64 {
            Some(s.subrange(p + 7, p + 71))
        } else {
            None
        },
        None => None,
    }
}

proof fn lemma_hex_run(h: Seq<char>, k: int)
    requires
        0 <= k <= h.len(),
    ensures
        0 <= hex_run_from(h, k) <= h.len() - k,
    decreases h.len() - k,
{
    if k < h.len() && is_hex_digit(h[k]) {
        lemma_hex_run(h, k + 1);
    }
}

/// The SHA-256 digest in a node id or package URL: the 64 hex digits that
/// follow its first `sha256:`, when there are that many.
pub fn extract_sha256(s: &str) -> (r: Option<&str>)
    ensures
        match r {
            Some(h) => sha256_digest(s@) == Some(h@),
            None => sha256_digest(s@) is None,
        },
{
    let cs = chars_of(s);
    let marker = chars_of("sha256:");
    proof {
        reveal_strlit("sha256:");
        assert(marker@ =~= sha_marker());
    }
    let n = cs.len();
    match find_from_exec(cs.as_slice(), marker.as_slice(), 0) {
        Some(p) => {
            assert(p + 7 <= n);
            let start = p + 7;
            let run = hex_run_exec(cs.as_slice(), start);
            if run >= 64 {
                Some(s.substring_char(start, start + 64))
            } else {
                None
            }
        },
        None => None,
    }
}

fn hex_run_exec(cs: &[char], start: usize) -> (r: usize)
    requires
        start <= cs@.len(),
    ensures
        r as int == hex_run_from(cs@, start as int),
        start + r <= cs@.len(),
{
    let mut k = start;
    proof {
        lemma_hex_run(cs@, start as int);
    }
    while k < cs.len()
        invariant
            start <= k <= cs@.len(),
            hex_run_from(cs@, start as int) == (k - start) + hex_run_from(cs@, k as int),
        decreases cs.len() - k,
    {
        let c = cs[k];
        if !(('0' <= c && c <= '9') || ('a' <= c && c <= 'f') || ('A' <= c && c <= 'F')) {
            return k - start;
        }
        k += 1;
    }
    k - start
}

/// A package URL with percent-encoding undone and its qualifiers dropped.
pub open spec fn normalized_purl(p: Seq<char>) -> Seq<char> {
    before_char(decoded_or_kept(p), '?')
}

/// Cuts a decoded package URL at its qualifiers (`?`).
pub fn strip_purl_qualifiers(decoded: &str) -> (r: String)
    ensures
        r@ == before_char(decoded@, '?'),
{
    let cs = chars_of(decoded);
    let cut = before_char_exec(cs.as_slice(), '?');
    string_of(cut.as_slice())
}

/// Normalizes a package URL: percent-decoded, cut at its qualifiers.
pub fn normalize_purl(purl: &str) -> (r: String)
    ensures
        r@ == normalized_purl(purl@),
{
    let decoded = decode_or_keep(purl);
    strip_purl_qualifiers(decoded.as_str())
}

/// The normalized package URLs, sorted, each once.
pub open spec fn purl_set(ps: Seq<Seq<char>>) -> Seq<Seq<char>> {
    dedup(sorted(ps.map_values(|p: Seq<char>| normalized_purl(p))))
}

/// The package URLs normalized, sorted, each once.
pub fn normalize_purl_set(purls: &[String]) -> (r: Vec<String>)
    ensures
        strs(r@) == purl_set(strs(purls@)),
{
    let mut normalized: Vec<String> = Vec::new();
    let mut i: usize = 0;
    while i < purls.len()
        invariant
            i <= purls@.len(),
            strs(normalized@) == strs(purls@).take(i as int).map_values(|p: Seq<char>| normalized_purl(p)),
        decreases purls.len() - i,
    {
        let ghost old_n = strs(normalized@);
        let np = normalize_purl(purls[i].as_str());
        normalized.push(np);
        assert(strs(normalized@) =~= old_n.push(np@));
        assert(strs(purls@).take(i + 1).map_values(|p: Seq<char>| normalized_purl(p)) =~= strs(purls@).take(i as int).map_values(|p: Seq<char>| normalized_purl(p)).push(normalized_purl(purls@[i as int]@)));
        i += 1;
    }
    assert(strs(purls@).take(purls@.len() as int) =~= strs(purls@));
    let s = sort_strings(&normalized);
    dedup_strings(s)
}

/// A timestamp `date time+zone` rewritten as `dateTtimeZ`; any other text
/// as it is.
pub open spec fn normalized_timestamp(t: Seq<char>) -> Seq<char> {
    if t.contains(' ') && t.contains('+') {
        let sp = find_char(t, ' ')->0;
        let segment = before_char(t.skip(sp + 1), ' ');
        t.take(sp) + seq!['T'] + before_char(segment, '+') + seq!['Z']
    } else {
        t
    }
}

/// Rewrites `2025-12-02 12:05:38+00` as `2025-12-02T12:05:38Z`: the text
/// before the first space, `T`, the second space-separated part up to its
/// first `+`, `Z`; a timestamp without both a space and a `+` is kept.
pub fn normalize_timestamp(timestamp: &str) -> (r: String)
    ensures
        r@ == normalized_timestamp(timestamp@),
{
    let cs = chars_of(timestamp);
    let has_space = crate::text::contains_char(cs.as_slice(), ' ');
    let has_plus = crate::text::contains_char(cs.as_slice(), '+');
    if has_space && has_plus {
        proof {
            let w = choose|w: int| 0 <= w < cs@.len() && cs@[w] == ' ';
            lemma_find_char_from_has(cs@, ' ', 0, w);
        }
        let sp = find_char_from_exec(cs.as_slice(), ' ', 0).unwrap();
        let rest = crate::text::skip(cs.as_slice(), sp + 1);
        let segment = before_char_exec(rest.as_slice(), ' ');
        let time = before_char_exec(segment.as_slice(), '+');
        let mut r = string_of_range(cs.as_slice(), 0, sp);
        crate::text::push_char(&mut r, 'T');
        crate::text::push_chars(&mut r, time.as_slice());
        crate::text::push_char(&mut r, 'Z');
        assert(cs@.subrange(0, sp as int) =~= cs@.take(sp as int));
        r
    } else {
        timestamp.to_owned()
    }
}

/// A character that occurs at or after `k` is found.
proof fn lemma_find_char_from_has(s: Seq<char>, c: char, k: int, w: int)
    requires
        0 <= k <= w < s.len(),
        s[w] == c,
    ensures
        crate::text::find_char_from(s, c, k) is Some,
    decreases w - k,
{
    if s[k] != c {
        lemma_find_char_from_has(s, c, k + 1, w);
    }
}

/// `s` cut to `max_len` bytes: kept when it fits, else its first
/// `max_len - 3` bytes followed by `...`.
pub open spec fn truncated(s: Seq<char>, max_len: usize) -> Seq<char> {
    if vstd::utf8::encode_utf8(s).len() <= max_len {
        s
    } else {
        vstd::utf8::decode_utf8(vstd::utf8::encode_utf8(s).subrange(0, max_len - 3)) + seq!['.', '.', '.']
    }
}

/// Shortens `s` to at most `max_len` bytes, marking the cut with `...`.
pub fn truncate(s: &str, max_len: usize) -> (r: String)
    requires
        vstd::utf8::encode_utf8(s@).len() <= max_len || (max_len >= 3 && vstd::utf8::is_char_boundary(
            vstd::utf8::encode_utf8(s@),
            max_len - 3,
        )),
    ensures
        r@ == truncated(s@, max_len),
{
    let byte_len = s.as_bytes().len();
    if byte_len <= max_len {
        s.to_owned()
    } else {
        let (head, _) = s.split_at(max_len - 3);
        let mut r = head.to_owned();
        let dots = "...";
        proof {
            reveal_strlit("...");
            vstd::utf8::encode_utf8_decode_utf8(head@);
            assert(head.spec_bytes() == vstd::utf8::encode_utf8(head@));
            assert(vstd::utf8::encode_utf8(head@) =~= vstd::utf8::encode_utf8(s@).subrange(0, max_len - 3));
        }
        r.append(dots);
        assert(dots@ =~= seq!['.', '.', '.']);
        r
    }
}

/// The flattened nodes as characters.
pub open spec fn node_views(v: Seq<NormalizedNode>) -> Seq<NormalizedView> {
    v.map_values(|n: NormalizedNode| n@)
}

/// The text of `v["node_id"]`, empty when it is not a string.
pub open spec fn node_id_of(v: JsonValue) -> Seq<char> {
    text_or_empty(member(v, "node_id"@))
}

/// The normalized ids of the elements that have a non-empty node id.
pub open spec fn child_ids(vs: Seq<JsonValue>) -> Seq<Seq<char>>
    decreases vs.len(),
{
    if vs.len() == 0 {
        Seq::empty()
    } else {
        child_ids(vs.drop_last()) + if node_id_of(vs.last()).len() > 0 {
            seq![normalized_id(node_id_of(vs.last()))]
        } else {
            Seq::empty()
        }
    }
}

/// How deep descendants and ancestors nest below a value.
pub open spec fn nest(v: JsonValue) -> nat
    decreases v, 1int, 0int,
{
    let d = nest_children(v, "descendants"@, 0);
    let a = nest_children(v, "ancestors"@, 0);
    if d >= a {
        d
    } else {
        a
    }
}

/// How deep the elements of `owner[key]` from the `i`-th on nest, counting
/// their own level.
pub open spec fn nest_children(owner: JsonValue, key: Seq<char>, i: int) -> nat
    decreases owner, 0int, elements(member(owner, key)).len() - i,
{
    let vs = elements(member(owner, key));
    if i < 0 || i >= vs.len() {
        0
    } else {
        proof {
            lemma_member_elements_decrease(owner, key, i);
        }
        let here = 1 + nest(vs[i]);
        let rest = nest_children(owner, key, i + 1);
        if here >= rest {
            here
        } else {
            rest
        }
    }
}

/// The position of the node with id `id`, from `k` on.
pub open spec fn index_of_id(acc: Seq<NormalizedView>, id: Seq<char>, k: int) -> Option<int>
    decreases acc.len() - k,
{
    if k < 0 || k >= acc.len() {
        None
    } else if acc[k].id == id {
        Some(k)
    } else {
        index_of_id(acc, id, k + 1)
    }
}

/// `acc` with `node` in place of the node with its id, or added at the end.
pub open spec fn upsert(acc: Seq<NormalizedView>, node: NormalizedView) -> Seq<NormalizedView> {
    match index_of_id(acc, node.id, 0) {
        Some(i) => acc.update(i, node),
        None => acc.push(node),
    }
}

/// The node that a hierarchy value stands for, at `depth` below `parent`.
pub open spec fn flat_node(v: JsonValue, depth: usize, parent: Option<Seq<char>>) -> NormalizedView {
    NormalizedView {
        id: normalized_id(node_id_of(v)),
        name: text_or_empty(member(v, "name"@)),
        version: text_or_empty(member(v, "version"@)),
        purl: texts(elements(member(v, "purl"@))),
        cpe: texts(elements(member(v, "cpe"@))),
        published: normalized_timestamp(text_or_empty(member(v, "published"@))),
        relationship: as_text(member(v, "relationship"@)),
        depth,
        sbom_id: as_text(member(v, "sbom_id"@)),
        document_id: as_text(member(v, "document_id"@)),
        warnings: texts(elements(member(v, "warnings"@))),
        parent,
        children: child_ids(elements(member(v, "descendants"@))) + child_ids(
            elements(member(v, "ancestors"@)),
        ),
    }
}

/// `acc` with the nodes of a hierarchy value added: the value itself (if
/// it has a node id) replacing a node with the same id, then its
/// descendants and its ancestors one level deeper.
pub open spec fn flatten(v: JsonValue, depth: usize, parent: Option<Seq<char>>, acc: Seq<NormalizedView>) -> Seq<NormalizedView>
    decreases v, 1int, 0int,
{
    if node_id_of(v).len() == 0 {
        acc
    } else {
        let id = normalized_id(node_id_of(v));
        let acc1 = upsert(acc, flat_node(v, depth, parent));
        let acc2 = flatten_children(v, "descendants"@, (depth + 1) as usize, Some(id), acc1, 0);
        flatten_children(v, "ancestors"@, (depth + 1) as usize, Some(id), acc2, 0)
    }
}

/// `acc` with the elements of `owner[key]` from the `i`-th on flattened in turn.
pub open spec fn flatten_children(
    owner: JsonValue,
    key: Seq<char>,
    depth: usize,
    parent: Option<Seq<char>>,
    acc: Seq<NormalizedView>,
    i: int,
) -> Seq<NormalizedView>
    decreases owner, 0int, elements(member(owner, key)).len() - i,
{
    let vs = elements(member(owner, key));
    if i < 0 || i >= vs.len() {
        acc
    } else {
        proof {
            lemma_member_elements_decrease(owner, key, i);
        }
        flatten_children(owner, key, depth, parent, flatten(vs[i], depth, parent, acc), i + 1)
    }
}

proof fn lemma_nest_children(owner: JsonValue, key: Seq<char>, i: int, j: int)
    requires
        0 <= i <= j < elements(member(owner, key)).len(),
    ensures
        nest_children(owner, key, i) >= 1 + nest(elements(member(owner, key))[j]),
        nest_children(owner, key, i) >= nest_children(owner, key, j + 1),
    decreases j - i,
{
    if i < j {
        lemma_nest_children(owner, key, i + 1, j);
    }
}

fn child_ids_exec(vs: &[JsonValue]) -> (r: Vec<String>)
    ensures
        strs(r@) == child_ids(vs@),
{
    let mut r: Vec<String> = Vec::new();
    let mut i: usize = 0;
    while i < vs.len()
        invariant
            i <= vs@.len(),
            strs(r@) == child_ids(vs@.take(i as int)),
        decreases vs.len() - i,
    {
        assert(vs@.take(i + 1).drop_last() =~= vs@.take(i as int));
        let ghost old_r = strs(r@);
        let id = match member_text(&vs[i], "node_id") {
            Some(t) => t,
            None => String::new(),
        };
        if !id.as_str().is_empty() {
            let n = normalize_node_id(id.as_str());
            r.push(n);
            assert(strs(r@) =~= old_r.push(n@));
        } else {
            assert(child_ids(vs@.take(i + 1)) =~= child_ids(vs@.take(i as int)));
        }
        i += 1;
    }
    assert(vs@.take(vs@.len() as int) =~= vs@);
    r
}

fn text_or_empty_exec(v: &JsonValue, key: &str) -> (r: String)
    ensures
        r@ == text_or_empty(member(*v, key@)),
{
    match member_text(v, key) {
        Some(t) => t,
        None => String::new(),
    }
}

/// The position of the node with id `id`, if any.
pub fn index_of_id_exec(acc: &Vec<NormalizedNode>, id: &String) -> (r: Option<usize>)
    ensures
        match r {
            Some(i) => index_of_id(node_views(acc@), id@, 0) == Some(i as int) && i < acc@.len(),
            None => index_of_id(node_views(acc@), id@, 0) is None,
        },
{
    let mut k: usize = 0;
    while k < acc.len()
        invariant
            k <= acc@.len(),
            index_of_id(node_views(acc@), id@, 0) == index_of_id(node_views(acc@), id@, k as int),
        decreases acc.len() - k,
    {
        if crate::text::str_eq(acc[k].normalized_node_id.as_str(), id.as_str()) {
            return Some(k);
        }
        k += 1;
    }
    None
}

/// Adds the nodes of a hierarchy value to `result` (see `flatten`).
pub fn flatten_node(
    value: &JsonValue,
    depth: usize,
    parent_id: Option<&String>,
    result: &mut Vec<NormalizedNode>,
)
    requires
        depth + nest(*value) < usize::MAX,
    ensures
        node_views(final(result)@) == flatten(
            *value,
            depth,
            match parent_id {
                Some(p) => Some(p@),
                None => None,
            },
            node_views(old(result)@),
        ),
    decreases *value, 1int, 0int,
{
    let ghost acc0 = node_views(result@);
    let ghost parent = match parent_id {
        Some(p) => Some(p@),
        None => None::<Seq<char>>,
    };
    let node_id = text_or_empty_exec(value, "node_id");
    if node_id.as_str().is_empty() {
        return;
    }
    let normalized_id = normalize_node_id(node_id.as_str());
    let descendants = member_elements(value, "descendants");
    let ancestors = member_elements(value, "ancestors");
    let mut child_ids = child_ids_exec(descendants);
    let mut more = child_ids_exec(ancestors);
    let ghost c1 = strs(child_ids@);
    let ghost c2 = strs(more@);
    child_ids.append(&mut more);
    assert(strs(child_ids@) =~= c1 + c2);
    let published = text_or_empty_exec(value, "published");
    let node = NormalizedNode {
        normalized_node_id: normalized_id.clone(),
        name: text_or_empty_exec(value, "name"),
        version: text_or_empty_exec(value, "version"),
        purl: extract_json_string_array(member_or_null(value, "purl")),
        cpe: extract_json_string_array(member_or_null(value, "cpe")),
        published: normalize_timestamp(published.as_str()),
        relationship: member_text(value, "relationship"),
        depth,
        sbom_id: member_text(value, "sbom_id"),
        document_id: member_text(value, "document_id"),
        warnings: extract_json_string_array(member_or_null(value, "warnings")),
        parent_normalized_id: match parent_id {
            Some(p) => Some(p.clone()),
            None => None,
        },
        children_normalized_ids: child_ids,
    };
    assert(node@ == flat_node(*value, depth, parent));
    match index_of_id_exec(result, &node.normalized_node_id) {
        Some(i) => {
            result.set(i, node);
            assert(node_views(result@) =~= upsert(acc0, flat_node(*value, depth, parent)));
        },
        None => {
            result.push(node);
            assert(node_views(result@) =~= upsert(acc0, flat_node(*value, depth, parent)));
        },
    }
    proof {
        assert(nest(*value) >= nest_children(*value, "descendants"@, 0));
        assert(nest(*value) >= nest_children(*value, "ancestors"@, 0));
    }
    flatten_children_into(value, "descendants", depth + 1, &normalized_id, result, 0);
    flatten_children_into(value, "ancestors", depth + 1, &normalized_id, result, 0);
}

fn member_or_null<'a>(v: &'a JsonValue, key: &str) -> (r: &'a JsonValue)
    ensures
        *r == member(*v, key@),
{
    match crate::json::member_exec(v, key) {
        Some(x) => x,
        None => &JsonValue::Null,
    }
}

fn flatten_children_into(
    owner: &JsonValue,
    key: &str,
    depth: usize,
    parent: &String,
    result: &mut Vec<NormalizedNode>,
    i: usize,
)
    requires
        depth >= 1,
        depth - 1 + nest_children(*owner, key@, i as int) < usize::MAX,
    ensures
        node_views(final(result)@) == flatten_children(
            *owner,
            key@,
            depth,
            Some(parent@),
            node_views(old(result)@),
            i as int,
        ),
    decreases *owner, 0int, elements(member(*owner, key@)).len() - i,
{
    let vs = member_elements(owner, key);
    if i >= vs.len() {
        return;
    }
    proof {
        lemma_member_elements_decrease(*owner, key@, i as int);
        lemma_nest_children(*owner, key@, i as int, i as int);
    }
    flatten_node(&vs[i], depth, Some(parent), result);
    flatten_children_into(owner, key, depth, parent, result, i + 1);
}

/// A difference between the two documents as characters.
pub open spec fn mismatch(id: Seq<char>, kind: Seq<char>, api: Seq<char>, tool: Seq<char>) -> MismatchView {
    MismatchView { node_id: id, kind, api_value: api, tool_value: tool }
}

/// An optional text, empty when absent.
pub open spec fn or_empty(o: Option<Seq<char>>) -> Seq<char> {
    match o {
        Some(t) => t,
        None => Seq::empty(),
    }
}

/// One mismatch when `differs`, none otherwise.
pub open spec fn when(differs: bool, m: MismatchView) -> Seq<MismatchView> {
    if differs {
        seq![m]
    } else {
        Seq::empty()
    }
}

/// The field differences of a node present in both documents, in this
/// order: name, version, package URLs (normalized, sorted, each once),
/// CPEs (sorted), relationship. Lists are shown joined by `; `.
pub open spec fn field_mismatches(a: NormalizedView, t: NormalizedView) -> Seq<MismatchView> {
    let sep = "; "@;
    let ap = purl_set(a.purl);
    let tp = purl_set(t.purl);
    let ac = sorted(a.cpe);
    let tc = sorted(t.cpe);
    when(a.name != t.name, mismatch(a.id, "name"@, a.name, t.name))
        + when(a.version != t.version, mismatch(a.id, "version"@, a.version, t.version))
        + when(ap != tp, mismatch(a.id, "purl"@, join(ap, sep), join(tp, sep)))
        + when(ac != tc, mismatch(a.id, "cpe"@, join(ac, sep), join(tc, sep)))
        + when(
            a.relationship != t.relationship,
            mismatch(a.id, "relationship"@, or_empty(a.relationship), or_empty(t.relationship)),
        )
}

/// The differences as characters.
pub open spec fn field_views(v: Seq<FieldMismatch>) -> Seq<MismatchView> {
    v.map_values(|m: FieldMismatch| m@)
}

/// The differences as characters.
pub open spec fn structural_views(v: Seq<StructuralMismatch>) -> Seq<MismatchView> {
    v.map_values(|m: StructuralMismatch| m@)
}

/// The two optional strings hold the same text, or are both absent.
pub fn opt_eq(a: &Option<String>, b: &Option<String>) -> (r: bool)
    ensures
        r == (opt_str(*a) == opt_str(*b)),
{
    match (a, b) {
        (Some(x), Some(y)) => str_eq(x.as_str(), y.as_str()),
        (None, None) => true,
        _ => false,
    }
}

fn text_or_empty_of(o: &Option<String>) -> (r: String)
    ensures
        r@ == or_empty(opt_str(*o)),
{
    match o {
        Some(t) => t.clone(),
        None => String::new(),
    }
}

fn push_field_mismatch(
    out: &mut Vec<FieldMismatch>,
    id: &String,
    kind: &str,
    api_value: String,
    tool_value: String,
)
    ensures
        field_views(final(out)@) == field_views(old(out)@).push(
            mismatch(id@, kind@, api_value@, tool_value@),
        ),
{
    let ghost before = field_views(out@);
    out.push(FieldMismatch { node_id: id.clone(), field_name: kind.to_owned(), api_value, tool_value });
    assert(field_views(out@) =~= before.push(mismatch(id@, kind@, api_value@, tool_value@)));
}

/// The field differences of a node present in both documents (see
/// `field_mismatches`).
pub fn compare_fields(api_node: &NormalizedNode, tool_node: &NormalizedNode) -> (r: Vec<FieldMismatch>)
    ensures
        field_views(r@) == field_mismatches(api_node@, tool_node@),
{
    let ghost a = api_node@;
    let ghost t = tool_node@;
    let mut out: Vec<FieldMismatch> = Vec::new();
    let nid = &api_node.normalized_node_id;
    let ghost s0 = field_views(out@);
    if !str_eq(api_node.name.as_str(), tool_node.name.as_str()) {
        push_field_mismatch(&mut out, nid, "name", api_node.name.clone(), tool_node.name.clone());
    }
    let ghost s1 = field_views(out@);
    assert(s1 =~= s0 + when(a.name != t.name, mismatch(a.id, "name"@, a.name, t.name)));
    if !str_eq(api_node.version.as_str(), tool_node.version.as_str()) {
        push_field_mismatch(&mut out, nid, "version", api_node.version.clone(), tool_node.version.clone());
    }
    let ghost s2 = field_views(out@);
    assert(s2 =~= s1 + when(a.version != t.version, mismatch(a.id, "version"@, a.version, t.version)));
    let api_purls = normalize_purl_set(api_node.purl.as_slice());
    let tool_purls = normalize_purl_set(tool_node.purl.as_slice());
    if !strings_eq(&api_purls, &tool_purls) {
        let av = join_strings(&api_purls, "; ");
        let tv = join_strings(&tool_purls, "; ");
        push_field_mismatch(&mut out, nid, "purl", av, tv);
    }
    let ghost s3 = field_views(out@);
    assert(s3 =~= s2 + when(
        purl_set(a.purl) != purl_set(t.purl),
        mismatch(a.id, "purl"@, join(purl_set(a.purl), "; "@), join(purl_set(t.purl), "; "@)),
    ));
    let api_cpe = sort_strings(&api_node.cpe);
    let tool_cpe = sort_strings(&tool_node.cpe);
    if !strings_eq(&api_cpe, &tool_cpe) {
        let av = join_strings(&api_cpe, "; ");
        let tv = join_strings(&tool_cpe, "; ");
        push_field_mismatch(&mut out, nid, "cpe", av, tv);
    }
    let ghost s4 = field_views(out@);
    assert(s4 =~= s3 + when(
        sorted(a.cpe) != sorted(t.cpe),
        mismatch(a.id, "cpe"@, join(sorted(a.cpe), "; "@), join(sorted(t.cpe), "; "@)),
    ));
    if !opt_eq(&api_node.relationship, &tool_node.relationship) {
        let av = text_or_empty_of(&api_node.relationship);
        let tv = text_or_empty_of(&tool_node.relationship);
        push_field_mismatch(&mut out, nid, "relationship", av, tv);
    }
    let ghost s5 = field_views(out@);
    assert(s5 =~= s4 + when(
        a.relationship != t.relationship,
        mismatch(a.id, "relationship"@, or_empty(a.relationship), or_empty(t.relationship)),
    ));
    assert(s0 =~= Seq::<MismatchView>::empty());
    assert(s5 =~= field_mismatches(a, t));
    out
}

/// How many distinct strings of `s` do not occur in `other`.
pub open spec fn distinct_absent(s: Seq<Seq<char>>, other: Seq<Seq<char>>) -> nat
    decreases s.len(),
{
    if s.len() == 0 {
        0
    } else {
        let fresh = !other.contains(s.last()) && !s.drop_last().contains(s.last());
        distinct_absent(s.drop_last(), other) + if fresh {
            1nat
        } else {
            0nat
        }
    }
}

/// A parent id, or `(root)` for none.
pub open spec fn root_or(p: Option<Seq<char>>) -> Seq<char> {
    match p {
        Some(x) => x,
        None => "(root)"@,
    }
}

/// `n children (k only in <side>)`.
pub open spec fn children_summary(n: nat, k: nat, side: Seq<char>) -> Seq<char> {
    decimal(n) + " children ("@ + decimal(k) + side
}

/// The structural differences of a node present in both documents: its
/// parent, then its children when their sorted lists differ and some
/// child id is in one list only (counted once per distinct id).
pub open spec fn structural_mismatches(a: NormalizedView, t: NormalizedView) -> Seq<MismatchView> {
    let oa = distinct_absent(a.children, t.children);
    let ot = distinct_absent(t.children, a.children);
    when(a.parent != t.parent, mismatch(a.id, "parent_differs"@, root_or(a.parent), root_or(t.parent)))
        + when(
            sorted(a.children) != sorted(t.children) && (oa > 0 || ot > 0),
            mismatch(
                a.id,
                "children_differ"@,
                children_summary(a.children.len(), oa, " only in API)"@),
                children_summary(t.children.len(), ot, " only in tool)"@),
            ),
        )
}

/// `x` occurs among the first `upto` strings of `v`.
pub fn contains_string(v: &Vec<String>, upto: usize, x: &str) -> (r: bool)
    requires
        upto <= v@.len(),
    ensures
        r == strs(v@).take(upto as int).contains(x@),
{
    let mut i: usize = 0;
    while i < upto
        invariant
            i <= upto <= v@.len(),
            forall|j: int| 0 <= j < i ==> v@[j]@ != x@,
        decreases upto - i,
    {
        if str_eq(v[i].as_str(), x) {
            assert(strs(v@).take(upto as int)[i as int] == x@);
            return true;
        }
        i += 1;
    }
    assert forall|j: int| 0 <= j < strs(v@).take(upto as int).len() implies strs(v@).take(upto as int)[j] != x@ by {
        assert(strs(v@).take(upto as int)[j] == v@[j]@);
    }
    false
}

/// How many distinct strings of `s` do not occur in `other`.
pub fn distinct_absent_count(s: &Vec<String>, other: &Vec<String>) -> (r: usize)
    ensures
        r as nat == distinct_absent(strs(s@), strs(other@)),
{
    let mut n: usize = 0;
    let mut i: usize = 0;
    while i < s.len()
        invariant
            i <= s@.len(),
            n <= i,
            n as nat == distinct_absent(strs(s@).take(i as int), strs(other@)),
        decreases s.len() - i,
    {
        let ghost pre = strs(s@).take(i as int + 1);
        assert(pre.drop_last() =~= strs(s@).take(i as int));
        assert(pre.last() == s@[i as int]@);
        let in_other = contains_string(other, other.len(), s[i].as_str());
        let seen = contains_string(s, i, s[i].as_str());
        assert(strs(other@).take(other@.len() as int) =~= strs(other@));
        if !in_other && !seen {
            n += 1;
        }
        i += 1;
    }
    assert(strs(s@).take(s@.len() as int) =~= strs(s@));
    n
}

fn children_summary_exec(n: usize, k: usize, side: &str) -> (r: String)
    ensures
        r@ == children_summary(n as nat, k as nat, side@),
{
    let mut r = decimal_string(n);
    r.append(" children (");
    let kd = decimal_string(k);
    r.append(kd.as_str());
    r.append(side);
    r
}

/// A parent id, or `(root)` for none.
pub fn root_or_exec(p: &Option<String>) -> (r: String)
    ensures
        r@ == root_or(opt_str(*p)),
{
    match p {
        Some(x) => x.clone(),
        None => "(root)".to_owned(),
    }
}

/// The structural differences of a node present in both documents (see
/// `structural_mismatches`).
pub fn compare_structure(api_node: &NormalizedNode, tool_node: &NormalizedNode) -> (r: Vec<StructuralMismatch>)
    ensures
        structural_views(r@) == structural_mismatches(api_node@, tool_node@),
{
    let ghost a = api_node@;
    let ghost t = tool_node@;
    let mut out: Vec<StructuralMismatch> = Vec::new();
    let nid = &api_node.normalized_node_id;
    if !opt_eq(&api_node.parent_normalized_id, &tool_node.parent_normalized_id) {
        let av = root_or_exec(&api_node.parent_normalized_id);
        let tv = root_or_exec(&tool_node.parent_normalized_id);
        out.push(StructuralMismatch {
            node_id: nid.clone(),
            mismatch_type: "parent_differs".to_owned(),
            api_value: av,
            tool_value: tv,
        });
    }
    let ghost s1 = structural_views(out@);
    assert(s1 =~= when(a.parent != t.parent, mismatch(a.id, "parent_differs"@, root_or(a.parent), root_or(t.parent))));
    let api_children = sort_strings(&api_node.children_normalized_ids);
    let tool_children = sort_strings(&tool_node.children_normalized_ids);
    let oa = distinct_absent_count(&api_node.children_normalized_ids, &tool_node.children_normalized_ids);
    let ot = distinct_absent_count(&tool_node.children_normalized_ids, &api_node.children_normalized_ids);
    if !strings_eq(&api_children, &tool_children) && (oa > 0 || ot > 0) {
        let av = children_summary_exec(api_node.children_normalized_ids.len(), oa, " only in API)");
        let tv = children_summary_exec(tool_node.children_normalized_ids.len(), ot, " only in tool)");
        out.push(StructuralMismatch {
            node_id: nid.clone(),
            mismatch_type: "children_differ".to_owned(),
            api_value: av,
            tool_value: tv,
        });
    }
    assert(structural_views(out@) =~= structural_mismatches(a, t));
    out
}

/// Law: a node's package URLs, normalized for comparison, come out in
/// strictly ascending order, each once, and they are exactly the
/// normalized forms of its URLs.
pub proof fn law_purl_set_strictly_ascending(ps: Seq<Seq<char>>)
    ensures
        strictly_ascending(purl_set(ps)),
        forall|x: Seq<char>|
            purl_set(ps).contains(x) <==> ps.map_values(|p: Seq<char>| normalized_purl(p)).contains(x),
{
    let n = ps.map_values(|p: Seq<char>| normalized_purl(p));
    lemma_sorted_ascending(n);
    lemma_dedup_strictly_ascending(sorted(n));
    broadcast use vstd::seq_lib::group_to_multiset_ensures;
    assert forall|x: Seq<char>| purl_set(ps).contains(x) <==> n.contains(x) by {
        if purl_set(ps).contains(x) {
            let i = choose|i: int| 0 <= i < purl_set(ps).len() && purl_set(ps)[i] == x;
            assert(sorted(n).contains(x));
            assert(sorted(n).to_multiset().count(x) > 0);
        }
        if n.contains(x) {
            assert(n.to_multiset().count(x) > 0);
            assert(sorted(n).contains(x));
            let j = choose|j: int| 0 <= j < sorted(n).len() && sorted(n)[j] == x;
            assert(dedup(sorted(n)).contains(sorted(n)[j]));
        }
    }
}

/// Law: a digest found in a node id or package URL is 64 hex digits.
pub proof fn law_digest_is_64_hex_digits(s: Seq<char>)
    ensures
        sha256_digest(s) matches Some(h) ==> h.len() == 64 && forall|i: int| 0 <= i < 64 ==> is_hex_digit(
            #[trigger] h[i],
        ),
{
    if let Some(p) = find(s, sha_marker()) {
        if hex_run_from(s, p + 7) >= 64 {
            crate::text::lemma_find_from_bound(s, sha_marker(), 0);
            lemma_hex_run_digits(s, p + 7, 64);
        }
    }
}

proof fn lemma_hex_run_digits(h: Seq<char>, k: int, m: int)
    requires
        0 <= k <= h.len(),
        0 <= m <= hex_run_from(h, k),
    ensures
        k + m <= h.len(),
        forall|i: int| k <= i < k + m ==> is_hex_digit(#[trigger] h[i]),
    decreases m,
{
    if m > 0 {
        assert(k < h.len() && is_hex_digit(h[k]));
        lemma_hex_run_digits(h, k + 1, m - 1);
    }
}

/// Law: comparing fields ignores the order of the package URLs and of the
/// CPEs on either side (the same ones, each as often, compare alike), and
/// a node compared with itself differs in nothing.
pub proof fn law_compare_fields_order_free(
    a: NormalizedView,
    t: NormalizedView,
    a2: NormalizedView,
    t2: NormalizedView,
)
    requires
        a2 == (NormalizedView { purl: a2.purl, cpe: a2.cpe, ..a }),
        t2 == (NormalizedView { purl: t2.purl, cpe: t2.cpe, ..t }),
        a2.purl.to_multiset() == a.purl.to_multiset(),
        a2.cpe.to_multiset() == a.cpe.to_multiset(),
        t2.purl.to_multiset() == t.purl.to_multiset(),
        t2.cpe.to_multiset() == t.cpe.to_multiset(),
    ensures
        field_mismatches(a2, t2) == field_mismatches(a, t),
        field_mismatches(a, a) == Seq::<MismatchView>::empty(),
{
    let f = |p: Seq<char>| normalized_purl(p);
    crate::text::lemma_map_same_multiset(a2.purl, a.purl, f);
    crate::text::lemma_map_same_multiset(t2.purl, t.purl, f);
    crate::text::lemma_sorted_same_multiset(a2.purl.map_values(f), a.purl.map_values(f));
    crate::text::lemma_sorted_same_multiset(t2.purl.map_values(f), t.purl.map_values(f));
    crate::text::lemma_sorted_same_multiset(a2.cpe, a.cpe);
    crate::text::lemma_sorted_same_multiset(t2.cpe, t.cpe);
    assert(purl_set(a2.purl) == purl_set(a.purl));
    assert(purl_set(t2.purl) == purl_set(t.purl));
    assert(field_mismatches(a2, t2) =~= field_mismatches(a, t));
    assert(field_mismatches(a, a) =~= Seq::<MismatchView>::empty());
}

/// Some difference among `ms` is of kind `k`.
pub open spec fn has_kind(ms: Seq<MismatchView>, k: Seq<char>) -> bool {
    exists|i: int| 0 <= i < ms.len() && (#[trigger] ms[i]).kind == k
}

/// The normalized forms of a node's package URLs, as a set.
pub open spec fn normalized_purls(ps: Seq<Seq<char>>) -> Set<Seq<char>> {
    ps.map_values(|p: Seq<char>| normalized_purl(p)).to_set()
}

proof fn lemma_has_kind_concat(x: Seq<MismatchView>, y: Seq<MismatchView>, k: Seq<char>)
    ensures
        has_kind(x + y, k) <==> (has_kind(x, k) || has_kind(y, k)),
{
    if has_kind(x + y, k) {
        let i = choose|i: int| 0 <= i < (x + y).len() && (#[trigger] (x + y)[i]).kind == k;
        if i < x.len() {
            assert(x[i] == (x + y)[i]);
        } else {
            assert(y[i - x.len()] == (x + y)[i]);
        }
    }
    if has_kind(x, k) {
        let i = choose|i: int| 0 <= i < x.len() && (#[trigger] x[i]).kind == k;
        assert((x + y)[i] == x[i]);
    }
    if has_kind(y, k) {
        let i = choose|i: int| 0 <= i < y.len() && (#[trigger] y[i]).kind == k;
        assert((x + y)[i + x.len()] == y[i]);
    }
}

proof fn lemma_has_kind_when(d: bool, m: MismatchView, k: Seq<char>)
    ensures
        has_kind(when(d, m), k) <==> (d && m.kind == k),
{
    if d {
        assert(when(d, m)[0] == m);
    }
}

/// The normalized package URL lists of two nodes are equal exactly when
/// they hold the same normalized package URLs.
proof fn lemma_purl_set_eq(a: Seq<Seq<char>>, t: Seq<Seq<char>>)
    ensures
        (purl_set(a) == purl_set(t)) <==> (normalized_purls(a) == normalized_purls(t)),
{
    law_purl_set_strictly_ascending(a);
    law_purl_set_strictly_ascending(t);
    let na = a.map_values(|p: Seq<char>| normalized_purl(p));
    let nt = t.map_values(|p: Seq<char>| normalized_purl(p));
    if purl_set(a) == purl_set(t) {
        assert forall|e: Seq<char>| normalized_purls(a).contains(e) <==> normalized_purls(t).contains(e) by {
            assert(normalized_purls(a).contains(e) == na.contains(e));
            assert(normalized_purls(t).contains(e) == nt.contains(e));
            assert(purl_set(a).contains(e) == na.contains(e));
            assert(purl_set(t).contains(e) == nt.contains(e));
        }
        assert(normalized_purls(a) =~= normalized_purls(t));
    }
    if normalized_purls(a) == normalized_purls(t) {
        assert forall|e: Seq<char>| purl_set(a).contains(e) <==> purl_set(t).contains(e) by {
            assert(normalized_purls(a).contains(e) == na.contains(e));
            assert(normalized_purls(t).contains(e) == nt.contains(e));
        }
        crate::text::lemma_strictly_ascending_unique(purl_set(a), purl_set(t));
    }
}

/// Sorted CPE lists are equal exactly when the lists hold the same CPEs,
/// each as often.
proof fn lemma_sorted_eq(a: Seq<Seq<char>>, t: Seq<Seq<char>>)
    ensures
        (sorted(a) == sorted(t)) <==> (a.to_multiset() == t.to_multiset()),
{
    crate::text::lemma_sorted_ascending(a);
    crate::text::lemma_sorted_ascending(t);
    if a.to_multiset() == t.to_multiset() {
        crate::text::lemma_sorted_same_multiset(a, t);
    }
}

/// Law: comparing the fields of a node present in both documents reports
/// each field exactly when it differs: the name or version when the texts
/// differ, the package URLs when the sets of their normalized forms
/// (percent-decoded, qualifiers dropped) differ, the CPEs when the two
/// sides do not hold the same CPEs each as often, the relationship when it
/// differs. Nothing is reported exactly when all five agree; each
/// difference names the node and carries the two sides' values (lists
/// normalized, sorted and joined by `; `).
pub proof fn law_field_mismatch_exactly_when_differs(a: NormalizedView, t: NormalizedView)
    ensures
        has_kind(field_mismatches(a, t), "name"@) <==> a.name != t.name,
        has_kind(field_mismatches(a, t), "version"@) <==> a.version != t.version,
        has_kind(field_mismatches(a, t), "purl"@) <==> normalized_purls(a.purl) != normalized_purls(t.purl),
        has_kind(field_mismatches(a, t), "cpe"@) <==> a.cpe.to_multiset() != t.cpe.to_multiset(),
        has_kind(field_mismatches(a, t), "relationship"@) <==> a.relationship != t.relationship,
        field_mismatches(a, t).len() == 0 <==> (a.name == t.name && a.version == t.version
            && normalized_purls(a.purl) == normalized_purls(t.purl) && a.cpe.to_multiset()
            == t.cpe.to_multiset() && a.relationship == t.relationship),
        forall|i: int| 0 <= i < field_mismatches(a, t).len() ==> (#[trigger] field_mismatches(a, t)[i]).node_id == a.id,
        forall|i: int|
            0 <= i < field_mismatches(a, t).len() ==> {
                let m = #[trigger] field_mismatches(a, t)[i];
                &&& m.kind == "name"@ ==> m.api_value == a.name && m.tool_value == t.name
                &&& m.kind == "version"@ ==> m.api_value == a.version && m.tool_value == t.version
                &&& m.kind == "purl"@ ==> m.api_value == join(purl_set(a.purl), "; "@) && m.tool_value == join(
                    purl_set(t.purl),
                    "; "@,
                )
                &&& m.kind == "cpe"@ ==> m.api_value == join(sorted(a.cpe), "; "@) && m.tool_value == join(
                    sorted(t.cpe),
                    "; "@,
                )
                &&& m.kind == "relationship"@ ==> m.api_value == or_empty(a.relationship) && m.tool_value
                    == or_empty(t.relationship)
            },
{
    reveal_strlit("name");
    reveal_strlit("version");
    reveal_strlit("purl");
    reveal_strlit("cpe");
    reveal_strlit("relationship");
    let kinds = seq!["name"@, "version"@, "purl"@, "cpe"@, "relationship"@];
    assert forall|x: int, y: int| 0 <= x < 5 && 0 <= y < 5 && x != y implies kinds[x] != kinds[y] by {
        if kinds[x].len() == kinds[y].len() {
            assert(kinds[x][0] != kinds[y][0]);
        }
    }
    let sep = "; "@;
    let ap = purl_set(a.purl);
    let tp = purl_set(t.purl);
    let ac = sorted(a.cpe);
    let tc = sorted(t.cpe);
    let w1 = when(a.name != t.name, mismatch(a.id, "name"@, a.name, t.name));
    let w2 = when(a.version != t.version, mismatch(a.id, "version"@, a.version, t.version));
    let w3 = when(ap != tp, mismatch(a.id, "purl"@, join(ap, sep), join(tp, sep)));
    let w4 = when(ac != tc, mismatch(a.id, "cpe"@, join(ac, sep), join(tc, sep)));
    let w5 = when(
        a.relationship != t.relationship,
        mismatch(a.id, "relationship"@, or_empty(a.relationship), or_empty(t.relationship)),
    );
    let fm = field_mismatches(a, t);
    assert(fm == w1 + w2 + w3 + w4 + w5);
    lemma_purl_set_eq(a.purl, t.purl);
    lemma_sorted_eq(a.cpe, t.cpe);
    assert forall|k: Seq<char>| has_kind(fm, k) <==> (has_kind(w1, k) || has_kind(w2, k) || has_kind(w3, k)
        || has_kind(w4, k) || has_kind(w5, k)) by {
        lemma_has_kind_concat(w1, w2, k);
        lemma_has_kind_concat(w1 + w2, w3, k);
        lemma_has_kind_concat(w1 + w2 + w3, w4, k);
        lemma_has_kind_concat(w1 + w2 + w3 + w4, w5, k);
    }
    assert forall|k: Seq<char>| #![trigger has_kind(fm, k)] has_kind(fm, k) <==> (
        (a.name != t.name && k == kinds[0]) || (a.version != t.version && k == kinds[1]) || (ap != tp && k
            == kinds[2]) || (ac != tc && k == kinds[3]) || (a.relationship != t.relationship && k == kinds[4])
    ) by {
        lemma_has_kind_when(a.name != t.name, mismatch(a.id, "name"@, a.name, t.name), k);
        lemma_has_kind_when(a.version != t.version, mismatch(a.id, "version"@, a.version, t.version), k);
        lemma_has_kind_when(ap != tp, mismatch(a.id, "purl"@, join(ap, sep), join(tp, sep)), k);
        lemma_has_kind_when(ac != tc, mismatch(a.id, "cpe"@, join(ac, sep), join(tc, sep)), k);
        lemma_has_kind_when(
            a.relationship != t.relationship,
            mismatch(a.id, "relationship"@, or_empty(a.relationship), or_empty(t.relationship)),
            k,
        );
    }
    assert(kinds[0] != kinds[1] && kinds[0] != kinds[2] && kinds[0] != kinds[3] && kinds[0] != kinds[4]);
    assert(kinds[1] != kinds[2] && kinds[1] != kinds[3] && kinds[1] != kinds[4]);
    assert(kinds[2] != kinds[3] && kinds[2] != kinds[4] && kinds[3] != kinds[4]);
    assert(has_kind(fm, kinds[0]) <==> a.name != t.name);
    assert(has_kind(fm, kinds[1]) <==> a.version != t.version);
    assert(has_kind(fm, kinds[2]) <==> ap != tp);
    assert(has_kind(fm, kinds[3]) <==> ac != tc);
    assert(has_kind(fm, kinds[4]) <==> a.relationship != t.relationship);
    if fm.len() > 0 {
        assert(has_kind(fm, fm[0].kind));
    }
    if fm.len() == 0 {
        assert forall|k: Seq<char>| !has_kind(fm, k) by {}
    }
    let m1 = mismatch(a.id, "name"@, a.name, t.name);
    let m2 = mismatch(a.id, "version"@, a.version, t.version);
    let m3 = mismatch(a.id, "purl"@, join(ap, sep), join(tp, sep));
    let m4 = mismatch(a.id, "cpe"@, join(ac, sep), join(tc, sep));
    let m5 = mismatch(a.id, "relationship"@, or_empty(a.relationship), or_empty(t.relationship));
    assert forall|i: int| 0 <= i < fm.len() implies #[trigger] fm[i] == m1 || fm[i] == m2 || fm[i] == m3
        || fm[i] == m4 || fm[i] == m5 by {
        let s1 = w1 + w2;
        let s2 = s1 + w3;
        let s3 = s2 + w4;
        if i >= s3.len() {
            assert(fm[i] == w5[i - s3.len()]);
        } else if i >= s2.len() {
            assert(fm[i] == s3[i]);
            assert(s3[i] == w4[i - s2.len()]);
        } else if i >= s1.len() {
            assert(fm[i] == s3[i] && s3[i] == s2[i]);
            assert(s2[i] == w3[i - s1.len()]);
        } else if i >= w1.len() {
            assert(fm[i] == s3[i] && s3[i] == s2[i] && s2[i] == s1[i]);
            assert(s1[i] == w2[i - w1.len()]);
        } else {
            assert(fm[i] == s3[i] && s3[i] == s2[i] && s2[i] == s1[i] && s1[i] == w1[i]);
        }
    }
}

} // verus!
