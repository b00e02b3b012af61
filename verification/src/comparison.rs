//! The comparison of two whole hierarchy documents: which nodes each one
//! lacks, which of those are the same artifact under another id, and how
//! the nodes present in both differ.

use vstd::prelude::*;
use crate::compare::{
    compare_fields, compare_structure, extract_sha256, opt_eq, sha256_digest, field_mismatches, field_views, flatten, flatten_node,
    index_of_id, index_of_id_exec, nest, node_views, structural_mismatches, structural_views,
    FieldMismatch, MismatchView, NormalizedNode, NormalizedView, StructuralMismatch,
};
use crate::json::{elements, member, JsonValue};
use crate::text::{
    chars_of, clone_opt, clone_strings, find, find_from_exec, join, join_strings, lex_lt, lex_lt_exec, opt_str, str_eq,
    strs,
};

verus! {

/// The nodes of a list of hierarchy values, flattened one after another.
pub open spec fn flatten_items(items: Seq<JsonValue>) -> Seq<NormalizedView>
    decreases items.len(),
{
    if items.len() == 0 {
        Seq::empty()
    } else {
        flatten(items.last(), 0, None, flatten_items(items.drop_last()))
    }
}

/// Every value of the list nests less deep than the largest `usize`.
pub open spec fn items_fit(items: Seq<JsonValue>) -> bool {
    forall|i: int| 0 <= i < items.len() ==> nest(#[trigger] items[i]) < usize::MAX
}

/// Flattens the values of a list one after another.
pub fn flatten_items_exec(items: &[JsonValue]) -> (r: Vec<NormalizedNode>)
    requires
        items_fit(items@),
    ensures
        node_views(r@) == flatten_items(items@),
{
    let mut r: Vec<NormalizedNode> = Vec::new();
    let mut i: usize = 0;
    while i < items.len()
        invariant
            i <= items@.len(),
            items_fit(items@),
            node_views(r@) == flatten_items(items@.take(i as int)),
        decreases items.len() - i,
    {
        assert(items@.take(i + 1).drop_last() =~= items@.take(i as int));
        assert(nest(items@[i as int]) < usize::MAX);
        flatten_node(&items[i], 0, None, &mut r);
        i += 1;
    }
    assert(items@.take(items@.len() as int) =~= items@);
    r
}

/// A copy of a flattened node.
pub fn clone_node(n: &NormalizedNode) -> (r: NormalizedNode)
    ensures
        r@ == n@,
{
    NormalizedNode {
        normalized_node_id: n.normalized_node_id.clone(),
        name: n.name.clone(),
        version: n.version.clone(),
        purl: clone_strings(&n.purl),
        cpe: clone_strings(&n.cpe),
        published: n.published.clone(),
        relationship: clone_opt(&n.relationship),
        depth: n.depth,
        sbom_id: clone_opt(&n.sbom_id),
        document_id: clone_opt(&n.document_id),
        warnings: clone_strings(&n.warnings),
        parent_normalized_id: clone_opt(&n.parent_normalized_id),
        children_normalized_ids: clone_strings(&n.children_normalized_ids),
    }
}

/// Some node of `ns` has the id `id`.
pub open spec fn has_id(ns: Seq<NormalizedView>, id: Seq<char>) -> bool {
    index_of_id(ns, id, 0) is Some
}

/// The nodes of `ns` whose id is (`present`) or is not (`!present`) an id
/// of `others`, in order.
pub open spec fn split_by(ns: Seq<NormalizedView>, others: Seq<NormalizedView>, present: bool) -> Seq<
    NormalizedView,
>
    decreases ns.len(),
{
    if ns.len() == 0 {
        Seq::empty()
    } else {
        split_by(ns.drop_last(), others, present) + if has_id(others, ns.last().id) == present {
            seq![ns.last()]
        } else {
            Seq::empty()
        }
    }
}

/// Copies of the nodes of `ns` whose id is (`present`) or is not
/// (`!present`) an id of `others`.
pub fn split_by_exec(ns: &Vec<NormalizedNode>, others: &Vec<NormalizedNode>, present: bool) -> (r: Vec<
    NormalizedNode,
>)
    ensures
        node_views(r@) == split_by(node_views(ns@), node_views(others@), present),
{
    let ghost nv = node_views(ns@);
    let mut r: Vec<NormalizedNode> = Vec::new();
    let mut i: usize = 0;
    while i < ns.len()
        invariant
            i <= ns@.len(),
            nv == node_views(ns@),
            node_views(r@) == split_by(nv.take(i as int), node_views(others@), present),
        decreases ns.len() - i,
    {
        assert(nv.take(i + 1).drop_last() =~= nv.take(i as int));
        assert(nv.take(i + 1).last() == ns@[i as int]@);
        let ghost before = node_views(r@);
        let found = index_of_id_exec(others, &ns[i].normalized_node_id).is_some();
        if found == present {
            let c = clone_node(&ns[i]);
            r.push(c);
            assert(node_views(r@) =~= before.push(c@));
        } else {
            assert(split_by(nv.take(i + 1), node_views(others@), present) =~= split_by(
                nv.take(i as int),
                node_views(others@),
                present,
            ));
        }
        i += 1;
    }
    assert(nv.take(ns@.len() as int) =~= nv);
    r
}

/// `y` comes after `x`: deeper, or as deep with a greater name.
pub open spec fn node_after(x: NormalizedView, y: NormalizedView) -> bool {
    x.depth < y.depth || (x.depth == y.depth && lex_lt(x.name, y.name))
}

/// The first position from `k` on of a node that comes after `x`.
pub open spec fn first_node_after(s: Seq<NormalizedView>, x: NormalizedView, k: int) -> int
    decreases s.len() - k,
{
    if k < 0 || k >= s.len() {
        s.len() as int
    } else if node_after(x, s[k]) {
        k
    } else {
        first_node_after(s, x, k + 1)
    }
}

/// The nodes ordered by depth, then name, the order among equal ones
/// kept (a stable sort).
pub open spec fn sort_nodes(s: Seq<NormalizedView>) -> Seq<NormalizedView>
    decreases s.len(),
{
    if s.len() == 0 {
        Seq::empty()
    } else {
        let sorted = sort_nodes(s.drop_last());
        let p = first_node_after(sorted, s.last(), 0);
        sorted.take(p).push(s.last()) + sorted.skip(p)
    }
}

proof fn lemma_first_node_after(s: Seq<NormalizedView>, x: NormalizedView, k: int)
    requires
        0 <= k <= s.len(),
    ensures
        k <= first_node_after(s, x, k) <= s.len(),
    decreases s.len() - k,
{
    if k < s.len() && !node_after(x, s[k]) {
        lemma_first_node_after(s, x, k + 1);
    }
}

fn node_after_exec(x: &NormalizedNode, y: &NormalizedNode) -> (r: bool)
    ensures
        r == node_after(x@, y@),
{
    if x.depth < y.depth {
        true
    } else if x.depth == y.depth {
        let xn = chars_of(x.name.as_str());
        let yn = chars_of(y.name.as_str());
        lex_lt_exec(xn.as_slice(), yn.as_slice())
    } else {
        false
    }
}

/// Sorts the nodes by depth, then name, keeping the order among equal
/// ones.
pub fn sort_nodes_exec(v: Vec<NormalizedNode>) -> (r: Vec<NormalizedNode>)
    ensures
        node_views(r@) == sort_nodes(node_views(v@)),
{
    let ghost vv = node_views(v@);
    let mut r: Vec<NormalizedNode> = Vec::new();
    let mut rest = v;
    let mut i: usize = 0;
    let n = rest.len();
    while i < n
        invariant
            i <= n == vv.len(),
            node_views(rest@) == vv.skip(i as int),
            rest@.len() == n - i,
            node_views(r@) == sort_nodes(vv.take(i as int)),
        decreases n - i,
    {
        assert(vv.take(i + 1).drop_last() =~= vv.take(i as int));
        assert(node_views(rest@)[0] == vv[i as int]);
        let ghost old_rest = rest@;
        let x = rest.remove(0);
        assert forall|j: int| 0 <= j < rest@.len() implies #[trigger] rest@[j]@ == vv.skip(i + 1)[j] by {
            assert(rest@[j] == old_rest[j + 1]);
            assert(node_views(old_rest)[j + 1] == vv.skip(i as int)[j + 1]);
        }
        assert(node_views(rest@) =~= vv.skip(i + 1));
        let ghost rv = node_views(r@);
        let mut p: usize = 0;
        proof {
            lemma_first_node_after(rv, x@, 0);
        }
        while p < r.len()
            invariant
                p <= r@.len(),
                rv == node_views(r@),
                first_node_after(rv, x@, 0) == first_node_after(rv, x@, p as int),
            ensures
                p <= r@.len(),
                first_node_after(rv, x@, 0) == p as int,
            decreases r.len() - p,
        {
            if node_after_exec(&x, &r[p]) {
                break;
            }
            p += 1;
        }
        assert(first_node_after(rv, x@, 0) == p as int);
        r.insert(p, x);
        assert(node_views(r@) =~= rv.take(p as int).push(vv[i as int]) + rv.skip(p as int));
        i += 1;
    }
    assert(vv.take(n as int) =~= vv);
    r
}

/// The first SHA-256 digest among the package URLs from the `k`-th on.
pub open spec fn first_digest_from(ps: Seq<Seq<char>>, k: int) -> Option<Seq<char>>
    decreases ps.len() - k,
{
    if k < 0 || k >= ps.len() {
        None
    } else {
        match sha256_digest(ps[k]) {
            Some(h) => Some(h),
            None => first_digest_from(ps, k + 1),
        }
    }
}

/// The SHA-256 digest of a node: the one in its id, else the first one
/// among its package URLs.
pub open spec fn node_digest(n: NormalizedView) -> Option<Seq<char>> {
    match sha256_digest(n.id) {
        Some(h) => Some(h),
        None => first_digest_from(n.purl, 0),
    }
}

/// The SHA-256 digest of a node (see `node_digest`).
pub fn node_digest_exec(n: &NormalizedNode) -> (r: Option<String>)
    ensures
        opt_str(r) == node_digest(n@),
{
    if let Some(h) = extract_sha256(n.normalized_node_id.as_str()) {
        return Some(h.to_owned());
    }
    let ghost ps = strs(n.purl@);
    let mut k: usize = 0;
    while k < n.purl.len()
        invariant
            k <= n.purl@.len(),
            ps == strs(n.purl@),
            sha256_digest(n@.id) is None,
            first_digest_from(ps, 0) == first_digest_from(ps, k as int),
        decreases n.purl.len() - k,
    {
        assert(ps[k as int] == n.purl@[k as int]@);
        if let Some(h) = extract_sha256(n.purl[k].as_str()) {
            return Some(h.to_owned());
        }
        k += 1;
    }
    None
}

/// The first node from the `k`-th on at depth `depth` whose digest is `h`.
pub open spec fn same_depth_match(cands: Seq<NormalizedView>, depth: usize, h: Seq<char>, k: int) -> Option<
    int,
>
    decreases cands.len() - k,
{
    if k < 0 || k >= cands.len() {
        None
    } else if cands[k].depth == depth && node_digest(cands[k]) == Some(h) {
        Some(k)
    } else {
        same_depth_match(cands, depth, h, k + 1)
    }
}

/// The first node from the `k`-th on with an id other than `id` whose
/// digest is `h`.
pub open spec fn other_id_match(all: Seq<NormalizedView>, id: Seq<char>, h: Seq<char>, k: int) -> Option<
    int,
>
    decreases all.len() - k,
{
    if k < 0 || k >= all.len() {
        None
    } else if all[k].id != id && node_digest(all[k]) == Some(h) {
        Some(k)
    } else {
        other_id_match(all, id, h, k + 1)
    }
}

/// The id that a node lacking on the other side goes by there: the first
/// node lacking on this side at the same depth with the same digest, else
/// the first node of the other side under another id with the same digest.
pub open spec fn digest_partner(n: NormalizedView, cands: Seq<NormalizedView>, all: Seq<NormalizedView>) -> Option<
    Seq<char>,
> {
    match node_digest(n) {
        None => None,
        Some(h) => match same_depth_match(cands, n.depth, h, 0) {
            Some(i) => Some(cands[i].id),
            None => match other_id_match(all, n.id, h, 0) {
                Some(j) => Some(all[j].id),
                None => None,
            },
        },
    }
}

/// For each node of `ns` in order that has a partner, the pair of its id
/// and the partner's id.
pub open spec fn digest_links(ns: Seq<NormalizedView>, cands: Seq<NormalizedView>, all: Seq<NormalizedView>) -> Seq<
    (Seq<char>, Seq<char>),
>
    decreases ns.len(),
{
    if ns.len() == 0 {
        Seq::empty()
    } else {
        digest_links(ns.drop_last(), cands, all) + match digest_partner(ns.last(), cands, all) {
            Some(p) => seq![(ns.last().id, p)],
            None => Seq::empty(),
        }
    }
}

/// Pairs of strings as characters.
pub open spec fn pair_views(v: Seq<(String, String)>) -> Seq<(Seq<char>, Seq<char>)> {
    v.map_values(|p: (String, String)| (p.0@, p.1@))
}

fn same_digest(n: &NormalizedNode, h: &String) -> (r: bool)
    ensures
        r == (node_digest(n@) == Some(h@)),
{
    match node_digest_exec(n) {
        Some(d) => str_eq(d.as_str(), h.as_str()),
        None => false,
    }
}

fn digest_partner_exec(n: &NormalizedNode, cands: &Vec<NormalizedNode>, all: &Vec<NormalizedNode>) -> (r: Option<
    String,
>)
    ensures
        opt_str(r) == digest_partner(n@, node_views(cands@), node_views(all@)),
{
    let ghost cv = node_views(cands@);
    let ghost av = node_views(all@);
    let h = match node_digest_exec(n) {
        Some(h) => h,
        None => return None,
    };
    let mut i: usize = 0;
    while i < cands.len()
        invariant
            i <= cands@.len(),
            cv == node_views(cands@),
            node_digest(n@) == Some(h@),
            same_depth_match(cv, n@.depth, h@, 0) == same_depth_match(cv, n@.depth, h@, i as int),
        decreases cands.len() - i,
    {
        assert(cv[i as int] == cands@[i as int]@);
        if cands[i].depth == n.depth && same_digest(&cands[i], &h) {
            return Some(cands[i].normalized_node_id.clone());
        }
        i += 1;
    }
    let mut j: usize = 0;
    while j < all.len()
        invariant
            j <= all@.len(),
            av == node_views(all@),
            node_digest(n@) == Some(h@),
            cv == node_views(cands@),
            same_depth_match(cv, n@.depth, h@, 0) is None,
            other_id_match(av, n@.id, h@, 0) == other_id_match(av, n@.id, h@, j as int),
        decreases all.len() - j,
    {
        assert(av[j as int] == all@[j as int]@);
        if !str_eq(all[j].normalized_node_id.as_str(), n.normalized_node_id.as_str()) && same_digest(
            &all[j],
            &h,
        ) {
            return Some(all[j].normalized_node_id.clone());
        }
        j += 1;
    }
    None
}

/// The pairs of `digest_links`.
pub fn digest_links_exec(ns: &Vec<NormalizedNode>, cands: &Vec<NormalizedNode>, all: &Vec<NormalizedNode>) -> (r: Vec<
    (String, String),
>)
    ensures
        pair_views(r@) == digest_links(node_views(ns@), node_views(cands@), node_views(all@)),
{
    let ghost nv = node_views(ns@);
    let mut r: Vec<(String, String)> = Vec::new();
    let mut i: usize = 0;
    while i < ns.len()
        invariant
            i <= ns@.len(),
            nv == node_views(ns@),
            pair_views(r@) == digest_links(nv.take(i as int), node_views(cands@), node_views(all@)),
        decreases ns.len() - i,
    {
        assert(nv.take(i + 1).drop_last() =~= nv.take(i as int));
        assert(nv.take(i + 1).last() == ns@[i as int]@);
        let ghost before = pair_views(r@);
        match digest_partner_exec(&ns[i], cands, all) {
            Some(p) => {
                let id = ns[i].normalized_node_id.clone();
                let ghost pv = (id@, p@);
                r.push((id, p));
                assert(pair_views(r@) =~= before.push(pv));
            },
            None => {
                assert(digest_links(nv.take(i + 1), node_views(cands@), node_views(all@)) =~= before);
            },
        }
        i += 1;
    }
    assert(nv.take(ns@.len() as int) =~= nv);
    r
}

/// The position of the first pair from the `k`-th on whose first string is `key`.
pub open spec fn key_index(m: Seq<(Seq<char>, Seq<char>)>, key: Seq<char>, k: int) -> Option<int>
    decreases m.len() - k,
{
    if k < 0 || k >= m.len() {
        None
    } else if m[k].0 == key {
        Some(k)
    } else {
        key_index(m, key, k + 1)
    }
}

/// Some pair of `m` has `key` as its first string.
pub open spec fn has_key(m: Seq<(Seq<char>, Seq<char>)>, key: Seq<char>) -> bool {
    key_index(m, key, 0) is Some
}

/// `acc` with, for each link `(a, t)` of `fwd` in order whose `t` is the
/// id of a node of `targets` and not yet a key, the link `(t, a)` added.
pub open spec fn back_links(
    fwd: Seq<(Seq<char>, Seq<char>)>,
    targets: Seq<NormalizedView>,
    acc: Seq<(Seq<char>, Seq<char>)>,
) -> Seq<(Seq<char>, Seq<char>)>
    decreases fwd.len(),
{
    if fwd.len() == 0 {
        acc
    } else {
        let prev = back_links(fwd.drop_last(), targets, acc);
        let link = fwd.last();
        if has_id(targets, link.1) && !has_key(prev, link.1) {
            prev.push((link.1, link.0))
        } else {
            prev
        }
    }
}

/// The position of the first pair whose first string is `key`.
pub fn key_index_exec(m: &Vec<(String, String)>, key: &str) -> (r: Option<usize>)
    ensures
        match r {
            Some(i) => key_index(pair_views(m@), key@, 0) == Some(i as int) && i < m@.len(),
            None => key_index(pair_views(m@), key@, 0) is None,
        },
{
    let ghost mv = pair_views(m@);
    let mut k: usize = 0;
    while k < m.len()
        invariant
            k <= m@.len(),
            mv == pair_views(m@),
            key_index(mv, key@, 0) == key_index(mv, key@, k as int),
        decreases m.len() - k,
    {
        assert(mv[k as int] == (m@[k as int].0@, m@[k as int].1@));
        if str_eq(m[k].0.as_str(), key) {
            return Some(k);
        }
        k += 1;
    }
    None
}

/// Adds to `acc` the links of `back_links`.
pub fn back_links_exec(fwd: &Vec<(String, String)>, targets: &Vec<NormalizedNode>, acc: &mut Vec<(String, String)>)
    ensures
        pair_views(final(acc)@) == back_links(pair_views(fwd@), node_views(targets@), pair_views(old(acc)@)),
{
    let ghost fv = pair_views(fwd@);
    let ghost a0 = pair_views(acc@);
    let mut i: usize = 0;
    while i < fwd.len()
        invariant
            i <= fwd@.len(),
            fv == pair_views(fwd@),
            pair_views(acc@) == back_links(fv.take(i as int), node_views(targets@), a0),
        decreases fwd.len() - i,
    {
        assert(fv.take(i + 1).drop_last() =~= fv.take(i as int));
        assert(fv.take(i + 1).last() == (fwd@[i as int].0@, fwd@[i as int].1@));
        let ghost before = pair_views(acc@);
        let api_id = &fwd[i].0;
        let tool_id = &fwd[i].1;
        if index_of_id_exec(targets, tool_id).is_some() && key_index_exec(acc, tool_id.as_str()).is_none() {
            let link = (tool_id.clone(), api_id.clone());
            let ghost lv = (link.0@, link.1@);
            acc.push(link);
            assert(pair_views(acc@) =~= before.push(lv));
        }
        i += 1;
    }
    assert(fv.take(fwd@.len() as int) =~= fv);
}

/// `pat` occurs in `s`.
pub open spec fn contains_text(s: Seq<char>, pat: Seq<char>) -> bool {
    find(s, pat) is Some
}

/// An id and a text name the same architecture, `amd64` or `arm64`.
pub open spec fn same_arch(id: Seq<char>, text: Seq<char>) -> bool {
    (contains_text(id, "amd64"@) && contains_text(text, "amd64"@)) || (contains_text(id, "arm64"@)
        && contains_text(text, "arm64"@))
}

/// Two nodes at the same depth with the same name and relationship.
pub open spec fn look_alike(a: NormalizedView, t: NormalizedView) -> bool {
    a.depth == t.depth && a.name == t.name && a.relationship == t.relationship
}

/// Among the first strings of the links of `fwd` from the `k`-th on that
/// name a node of `api` that looks like `t`: the first one that names the
/// architecture that `text` names; else `best`, or the first such one if
/// `best` is none.
pub open spec fn best_match(
    fwd: Seq<(Seq<char>, Seq<char>)>,
    api: Seq<NormalizedView>,
    t: NormalizedView,
    text: Seq<char>,
    k: int,
    best: Option<Seq<char>>,
) -> Option<Seq<char>>
    decreases fwd.len() - k,
{
    if k < 0 || k >= fwd.len() {
        best
    } else {
        let id = fwd[k].0;
        match index_of_id(api, id, 0) {
            Some(i) => if look_alike(api[i], t) {
                if same_arch(id, text) {
                    Some(id)
                } else {
                    best_match(fwd, api, t, text, k + 1, if best is None { Some(id) } else { best })
                }
            } else {
                best_match(fwd, api, t, text, k + 1, best)
            },
            None => best_match(fwd, api, t, text, k + 1, best),
        }
    }
}

/// `acc` with, for each node of `ms` in order that is not yet a key, a
/// link to its best match (see `best_match`, over its package URLs joined
/// by spaces), where there is one.
pub open spec fn arch_links(
    ms: Seq<NormalizedView>,
    fwd: Seq<(Seq<char>, Seq<char>)>,
    api: Seq<NormalizedView>,
    acc: Seq<(Seq<char>, Seq<char>)>,
) -> Seq<(Seq<char>, Seq<char>)>
    decreases ms.len(),
{
    if ms.len() == 0 {
        acc
    } else {
        let prev = arch_links(ms.drop_last(), fwd, api, acc);
        let t = ms.last();
        if has_key(prev, t.id) {
            prev
        } else {
            match best_match(fwd, api, t, join(t.purl, " "@), 0, None) {
                Some(a) => prev.push((t.id, a)),
                None => prev,
            }
        }
    }
}

/// `pat` occurs in `s`.
pub fn contains_text_exec(s: &str, pat: &str) -> (r: bool)
    requires
        pat@.len() > 0,
    ensures
        r == contains_text(s@, pat@),
{
    let cs = chars_of(s);
    let ps = chars_of(pat);
    find_from_exec(cs.as_slice(), ps.as_slice(), 0).is_some()
}

fn same_arch_exec(id: &str, text: &str) -> (r: bool)
    ensures
        r == same_arch(id@, text@),
{
    proof {
        reveal_strlit("amd64");
        reveal_strlit("arm64");
    }
    (contains_text_exec(id, "amd64") && contains_text_exec(text, "amd64")) || (contains_text_exec(id, "arm64")
        && contains_text_exec(text, "arm64"))
}

fn best_match_exec(fwd: &Vec<(String, String)>, api: &Vec<NormalizedNode>, t: &NormalizedNode, text: &String) -> (r: Option<
    String,
>)
    ensures
        opt_str(r) == best_match(pair_views(fwd@), node_views(api@), t@, text@, 0, None),
{
    let ghost fv = pair_views(fwd@);
    let ghost av = node_views(api@);
    let mut best: Option<String> = None;
    let mut k: usize = 0;
    while k < fwd.len()
        invariant
            k <= fwd@.len(),
            fv == pair_views(fwd@),
            av == node_views(api@),
            best_match(fv, av, t@, text@, 0, None) == best_match(fv, av, t@, text@, k as int, opt_str(best)),
        decreases fwd.len() - k,
    {
        assert(fv[k as int] == (fwd@[k as int].0@, fwd@[k as int].1@));
        let id = &fwd[k].0;
        if let Some(i) = index_of_id_exec(api, id) {
            let a = &api[i];
            assert(av[i as int] == a@);
            if a.depth == t.depth && str_eq(a.name.as_str(), t.name.as_str()) && opt_eq(&a.relationship, &t.relationship) {
                if same_arch_exec(id.as_str(), text.as_str()) {
                    return Some(id.clone());
                }
                if best.is_none() {
                    best = Some(id.clone());
                }
            }
        }
        k += 1;
    }
    best
}

/// Adds to `acc` the links of `arch_links`.
pub fn arch_links_exec(
    ms: &Vec<NormalizedNode>,
    fwd: &Vec<(String, String)>,
    api: &Vec<NormalizedNode>,
    acc: &mut Vec<(String, String)>,
)
    ensures
        pair_views(final(acc)@) == arch_links(node_views(ms@), pair_views(fwd@), node_views(api@), pair_views(old(acc)@)),
{
    let ghost mv = node_views(ms@);
    let ghost a0 = pair_views(acc@);
    let mut i: usize = 0;
    while i < ms.len()
        invariant
            i <= ms@.len(),
            mv == node_views(ms@),
            pair_views(acc@) == arch_links(mv.take(i as int), pair_views(fwd@), node_views(api@), a0),
        decreases ms.len() - i,
    {
        assert(mv.take(i + 1).drop_last() =~= mv.take(i as int));
        assert(mv.take(i + 1).last() == ms@[i as int]@);
        let ghost before = pair_views(acc@);
        let t = &ms[i];
        if key_index_exec(acc, t.normalized_node_id.as_str()).is_none() {
            let text = join_strings(&t.purl, " ");
            if let Some(a) = best_match_exec(fwd, api, t, &text) {
                let link = (t.normalized_node_id.clone(), a);
                let ghost lv = (link.0@, link.1@);
                acc.push(link);
                assert(pair_views(acc@) =~= before.push(lv));
            }
        }
        i += 1;
    }
    assert(mv.take(ms@.len() as int) =~= mv);
}

/// The field differences of the nodes of `ms` against the nodes of
/// `tool` with the same ids, node after node.
pub open spec fn all_field_mismatches(ms: Seq<NormalizedView>, tool: Seq<NormalizedView>) -> Seq<MismatchView>
    decreases ms.len(),
{
    if ms.len() == 0 {
        Seq::empty()
    } else {
        all_field_mismatches(ms.drop_last(), tool) + match index_of_id(tool, ms.last().id, 0) {
            Some(j) => field_mismatches(ms.last(), tool[j]),
            None => Seq::empty(),
        }
    }
}

/// The structural differences of the nodes of `ms` against the nodes of
/// `tool` with the same ids, node after node.
pub open spec fn all_structural_mismatches(ms: Seq<NormalizedView>, tool: Seq<NormalizedView>) -> Seq<
    MismatchView,
>
    decreases ms.len(),
{
    if ms.len() == 0 {
        Seq::empty()
    } else {
        all_structural_mismatches(ms.drop_last(), tool) + match index_of_id(tool, ms.last().id, 0) {
            Some(j) => structural_mismatches(ms.last(), tool[j]),
            None => Seq::empty(),
        }
    }
}

/// The differences of the nodes of `ms` against the nodes of `tool` with
/// the same ids: fields, then structure.
pub fn matched_mismatches(ms: &Vec<NormalizedNode>, tool: &Vec<NormalizedNode>) -> (r: (
    Vec<FieldMismatch>,
    Vec<StructuralMismatch>,
))
    ensures
        field_views(r.0@) == all_field_mismatches(node_views(ms@), node_views(tool@)),
        structural_views(r.1@) == all_structural_mismatches(node_views(ms@), node_views(tool@)),
{
    let ghost mv = node_views(ms@);
    let ghost tv = node_views(tool@);
    let mut fields: Vec<FieldMismatch> = Vec::new();
    let mut structure: Vec<StructuralMismatch> = Vec::new();
    let mut i: usize = 0;
    while i < ms.len()
        invariant
            i <= ms@.len(),
            mv == node_views(ms@),
            tv == node_views(tool@),
            field_views(fields@) == all_field_mismatches(mv.take(i as int), tv),
            structural_views(structure@) == all_structural_mismatches(mv.take(i as int), tv),
        decreases ms.len() - i,
    {
        assert(mv.take(i + 1).drop_last() =~= mv.take(i as int));
        assert(mv.take(i + 1).last() == ms@[i as int]@);
        let ghost f0 = field_views(fields@);
        let ghost s0 = structural_views(structure@);
        match index_of_id_exec(tool, &ms[i].normalized_node_id) {
            Some(j) => {
                assert(tv[j as int] == tool@[j as int]@);
                let mut f = compare_fields(&ms[i], &tool[j]);
                let mut st = compare_structure(&ms[i], &tool[j]);
                let ghost fv = field_views(f@);
                let ghost sv = structural_views(st@);
                fields.append(&mut f);
                structure.append(&mut st);
                assert(field_views(fields@) =~= f0 + fv);
                assert(structural_views(structure@) =~= s0 + sv);
            },
            None => {
                assert(all_field_mismatches(mv.take(i + 1), tv) =~= f0);
                assert(all_structural_mismatches(mv.take(i + 1), tv) =~= s0);
            },
        }
        i += 1;
    }
    assert(mv.take(ms@.len() as int) =~= mv);
    (fields, structure)
}

/// The outcome of comparing the service's hierarchy with this tool's.
#[derive(Debug)]
pub struct ComparisonResult {
    pub api_node_count: usize,
    pub tool_node_count: usize,
    pub matched_node_count: usize,
    pub missing_in_tool: Vec<NormalizedNode>,
    pub missing_in_api: Vec<NormalizedNode>,
    pub field_mismatches: Vec<FieldMismatch>,
    pub structural_mismatches: Vec<StructuralMismatch>,
    /// Service node id to the tool's id for the same artifact.
    pub node_id_mismatch_tool: Vec<(String, String)>,
    /// Tool node id to the service's id for the same artifact.
    pub node_id_mismatch_api: Vec<(String, String)>,
}

/// A comparison as mathematical values.
pub struct ComparisonView {
    pub api_node_count: nat,
    pub tool_node_count: nat,
    pub matched_node_count: nat,
    pub missing_in_tool: Seq<NormalizedView>,
    pub missing_in_api: Seq<NormalizedView>,
    pub field_mismatches: Seq<MismatchView>,
    pub structural_mismatches: Seq<MismatchView>,
    pub node_id_mismatch_tool: Seq<(Seq<char>, Seq<char>)>,
    pub node_id_mismatch_api: Seq<(Seq<char>, Seq<char>)>,
}

impl View for ComparisonResult {
    type V = ComparisonView;

    open spec fn view(&self) -> ComparisonView {
        ComparisonView {
            api_node_count: self.api_node_count as nat,
            tool_node_count: self.tool_node_count as nat,
            matched_node_count: self.matched_node_count as nat,
            missing_in_tool: node_views(self.missing_in_tool@),
            missing_in_api: node_views(self.missing_in_api@),
            field_mismatches: field_views(self.field_mismatches@),
            structural_mismatches: structural_views(self.structural_mismatches@),
            node_id_mismatch_tool: pair_views(self.node_id_mismatch_tool@),
            node_id_mismatch_api: pair_views(self.node_id_mismatch_api@),
        }
    }
}

/// The comparison of two lists of hierarchy values.
///
/// Both are flattened. The nodes of each side whose id the other side
/// lacks are sorted by depth, then name. A service node lacking in the
/// tool is linked to the tool node it matches by SHA-256 digest (see
/// `digest_partner`), and the same the other way round; a tool node still
/// unlinked is then linked back from the service links that point to it,
/// and failing that to a look-alike service node (see `arch_links`). The
/// nodes present on both sides are compared field by field and by
/// structure.
pub open spec fn comparison(api_items: Seq<JsonValue>, tool_items: Seq<JsonValue>) -> ComparisonView {
    let api = flatten_items(api_items);
    let tool = flatten_items(tool_items);
    let matched = split_by(api, tool, true);
    let missing_in_tool = sort_nodes(split_by(api, tool, false));
    let missing_in_api = sort_nodes(split_by(tool, api, false));
    let fwd = digest_links(missing_in_tool, missing_in_api, tool);
    let rev = digest_links(missing_in_api, missing_in_tool, api);
    let rev = back_links(fwd, missing_in_api, rev);
    let rev = arch_links(missing_in_api, fwd, api, rev);
    ComparisonView {
        api_node_count: api.len(),
        tool_node_count: tool.len(),
        matched_node_count: matched.len(),
        missing_in_tool,
        missing_in_api,
        field_mismatches: all_field_mismatches(matched, tool),
        structural_mismatches: all_structural_mismatches(matched, tool),
        node_id_mismatch_tool: fwd,
        node_id_mismatch_api: rev,
    }
}

/// Why two documents could not be compared.
#[derive(Debug, PartialEq, Eq, Structural)]
pub enum CompareError {
    /// The service's document has no `items` array.
    ApiItemsMissing,
    /// The tool's document has no `items` array.
    ToolItemsMissing,
}

impl CompareError {
    /// The message for the error.
    pub fn message(&self) -> (r: String)
        ensures
            r@ == match self {
                CompareError::ApiItemsMissing => "API response missing 'items' array"@,
                CompareError::ToolItemsMissing => "Tool response missing 'items' array"@,
            },
    {
        match self {
            CompareError::ApiItemsMissing => "API response missing 'items' array".to_owned(),
            CompareError::ToolItemsMissing => "Tool response missing 'items' array".to_owned(),
        }
    }
}

/// `v["items"]` is an array.
pub open spec fn has_items(v: JsonValue) -> bool {
    member(v, "items"@) is Array
}

/// The values of `v["items"]`.
pub open spec fn items_of(v: JsonValue) -> Seq<JsonValue> {
    elements(member(v, "items"@))
}

/// Compares the service's hierarchy document with this tool's (see
/// `comparison`); each must hold an `items` array.
pub fn compare_hierarchies(api_json: &JsonValue, tool_json: &JsonValue) -> (r: Result<ComparisonResult, CompareError>)
    requires
        items_fit(items_of(*api_json)),
        items_fit(items_of(*tool_json)),
    ensures
        !has_items(*api_json) ==> r == Err::<ComparisonResult, CompareError>(CompareError::ApiItemsMissing),
        has_items(*api_json) && !has_items(*tool_json) ==> r == Err::<ComparisonResult, CompareError>(
            CompareError::ToolItemsMissing,
        ),
        has_items(*api_json) && has_items(*tool_json) ==> r is Ok && r->Ok_0@ == comparison(
            items_of(*api_json),
            items_of(*tool_json),
        ),
{
    let api_items = match crate::json::member_exec(api_json, "items") {
        Some(JsonValue::Array(vs)) => vs,
        _ => return Err(CompareError::ApiItemsMissing),
    };
    let tool_items = match crate::json::member_exec(tool_json, "items") {
        Some(JsonValue::Array(vs)) => vs,
        _ => return Err(CompareError::ToolItemsMissing),
    };
    let api_nodes = flatten_items_exec(api_items.as_slice());
    let tool_nodes = flatten_items_exec(tool_items.as_slice());
    let matched = split_by_exec(&api_nodes, &tool_nodes, true);
    let missing_in_tool = sort_nodes_exec(split_by_exec(&api_nodes, &tool_nodes, false));
    let missing_in_api = sort_nodes_exec(split_by_exec(&tool_nodes, &api_nodes, false));
    let node_id_mismatch_tool = digest_links_exec(&missing_in_tool, &missing_in_api, &tool_nodes);
    let mut node_id_mismatch_api = digest_links_exec(&missing_in_api, &missing_in_tool, &api_nodes);
    back_links_exec(&node_id_mismatch_tool, &missing_in_api, &mut node_id_mismatch_api);
    arch_links_exec(&missing_in_api, &node_id_mismatch_tool, &api_nodes, &mut node_id_mismatch_api);
    let (field_mismatches, structural_mismatches) = matched_mismatches(&matched, &tool_nodes);
    Ok(ComparisonResult {
        api_node_count: api_nodes.len(),
        tool_node_count: tool_nodes.len(),
        matched_node_count: matched.len(),
        missing_in_tool,
        missing_in_api,
        field_mismatches,
        structural_mismatches,
        node_id_mismatch_tool,
        node_id_mismatch_api,
    })
}

/// No node of `s` comes after a node that follows it.
pub open spec fn nodes_ordered(s: Seq<NormalizedView>) -> bool {
    forall|i: int, j: int| 0 <= i < j < s.len() ==> !node_after(#[trigger] s[j], #[trigger] s[i])
}

proof fn lemma_node_after_strict(x: NormalizedView, y: NormalizedView, z: NormalizedView)
    ensures
        !node_after(x, x),
        node_after(x, y) && node_after(y, z) ==> node_after(x, z),
{
    crate::text::lemma_lex_irreflexive(x.name);
    if node_after(x, y) && node_after(y, z) && x.depth == y.depth && y.depth == z.depth {
        crate::text::lemma_lex_lt_trans(x.name, y.name, z.name);
    }
}

/// Sorting orders the nodes by depth, then name, and rearranges them:
/// the same nodes, each as often.
pub proof fn law_sort_nodes_ordered(s: Seq<NormalizedView>)
    ensures
        nodes_ordered(sort_nodes(s)),
        sort_nodes(s).to_multiset() == s.to_multiset(),
    decreases s.len(),
{
    if s.len() > 0 {
        let prev = sort_nodes(s.drop_last());
        law_sort_nodes_ordered(s.drop_last());
        let x = s.last();
        let p = first_node_after(prev, x, 0);
        lemma_first_node_after(prev, x, 0);
        lemma_first_node_after_below(prev, x, 0);
        let r = prev.take(p).push(x) + prev.skip(p);
        assert(sort_nodes(s) == r);
        assert forall|i: int, j: int| 0 <= i < j < r.len() implies !node_after(#[trigger] r[j], #[trigger] r[i]) by {
            if j < p {
                assert(r[i] == prev[i] && r[j] == prev[j]);
            } else if j == p {
                assert(r[j] == x && r[i] == prev[i]);
            } else if i < p {
                assert(r[i] == prev[i] && r[j] == prev[j - 1]);
            } else if i == p {
                assert(r[i] == x && r[j] == prev[j - 1]);
                assert(p < prev.len());
                assert(node_after(x, prev[p]));
                lemma_node_after_strict(prev[j - 1], x, prev[p]);
                lemma_node_after_strict(x, prev[p], prev[p]);
                if j - 1 > p {
                    assert(!node_after(prev[j - 1], prev[p]));
                }
            } else {
                assert(r[i] == prev[i - 1] && r[j] == prev[j - 1]);
            }
        }
        assert(prev =~= prev.take(p) + prev.skip(p));
        vstd::seq_lib::lemma_multiset_commutative(prev.take(p).push(x), prev.skip(p));
        vstd::seq_lib::lemma_multiset_commutative(prev.take(p), prev.skip(p));
        assert(s =~= s.drop_last().push(x));
        broadcast use vstd::seq_lib::group_to_multiset_ensures;
        assert(r.to_multiset() =~= prev.to_multiset().insert(x));
    } else {
        assert(sort_nodes(s) =~= s);
    }
}

proof fn lemma_first_node_after_below(s: Seq<NormalizedView>, x: NormalizedView, k: int)
    requires
        0 <= k <= s.len(),
    ensures
        forall|m: int| k <= m < first_node_after(s, x, k) ==> !node_after(x, #[trigger] s[m]),
        first_node_after(s, x, k) < s.len() ==> node_after(x, s[first_node_after(s, x, k)]),
    decreases s.len() - k,
{
    if k < s.len() && !node_after(x, s[k]) {
        lemma_first_node_after_below(s, x, k + 1);
    }
}

/// No two nodes of `s` share an id.
pub open spec fn ids_distinct(s: Seq<NormalizedView>) -> bool {
    forall|i: int, j: int| 0 <= i < j < s.len() ==> #[trigger] s[i].id != #[trigger] s[j].id
}

proof fn lemma_index_of_id(s: Seq<NormalizedView>, id: Seq<char>, k: int)
    requires
        0 <= k,
    ensures
        match index_of_id(s, id, k) {
            Some(i) => k <= i < s.len() && s[i].id == id,
            None => forall|m: int| k <= m < s.len() ==> #[trigger] s[m].id != id,
        },
    decreases s.len() - k,
{
    if k < s.len() && s[k].id != id {
        lemma_index_of_id(s, id, k + 1);
    }
}

proof fn lemma_index_of_id_at(s: Seq<NormalizedView>, k: int, i: int)
    requires
        0 <= k <= i < s.len(),
    ensures
        index_of_id(s, s[i].id, k) is Some,
        ids_distinct(s) ==> index_of_id(s, s[i].id, k) == Some(i),
    decreases i - k,
{
    if s[k].id != s[i].id {
        lemma_index_of_id_at(s, k + 1, i);
    }
}

proof fn lemma_upsert_distinct(acc: Seq<NormalizedView>, node: NormalizedView)
    requires
        ids_distinct(acc),
    ensures
        ids_distinct(crate::compare::upsert(acc, node)),
{
    lemma_index_of_id(acc, node.id, 0);
}

proof fn lemma_flatten_distinct(v: JsonValue, depth: usize, parent: Option<Seq<char>>, acc: Seq<NormalizedView>)
    requires
        ids_distinct(acc),
    ensures
        ids_distinct(flatten(v, depth, parent, acc)),
    decreases v, 1int, 0int,
{
    if crate::compare::node_id_of(v).len() != 0 {
        let id = crate::compare::normalized_id(crate::compare::node_id_of(v));
        let acc1 = crate::compare::upsert(acc, crate::compare::flat_node(v, depth, parent));
        lemma_upsert_distinct(acc, crate::compare::flat_node(v, depth, parent));
        lemma_flatten_children_distinct(v, "descendants"@, (depth + 1) as usize, Some(id), acc1, 0);
        let acc2 = crate::compare::flatten_children(v, "descendants"@, (depth + 1) as usize, Some(id), acc1, 0);
        lemma_flatten_children_distinct(v, "ancestors"@, (depth + 1) as usize, Some(id), acc2, 0);
    }
}

proof fn lemma_flatten_children_distinct(
    owner: JsonValue,
    key: Seq<char>,
    depth: usize,
    parent: Option<Seq<char>>,
    acc: Seq<NormalizedView>,
    i: int,
)
    requires
        ids_distinct(acc),
    ensures
        ids_distinct(crate::compare::flatten_children(owner, key, depth, parent, acc, i)),
    decreases owner, 0int, elements(member(owner, key)).len() - i,
{
    let vs = elements(member(owner, key));
    if 0 <= i < vs.len() {
        crate::json::lemma_member_elements_decrease(owner, key, i);
        lemma_flatten_distinct(vs[i], depth, parent, acc);
        lemma_flatten_children_distinct(owner, key, depth, parent, flatten(vs[i], depth, parent, acc), i + 1);
    }
}

/// Flattening keys the nodes by id: no id occurs twice.
pub proof fn law_flattened_ids_distinct(items: Seq<JsonValue>)
    ensures
        ids_distinct(flatten_items(items)),
    decreases items.len(),
{
    if items.len() > 0 {
        law_flattened_ids_distinct(items.drop_last());
        lemma_flatten_distinct(items.last(), 0, None, flatten_items(items.drop_last()));
    }
}

proof fn lemma_split_self(ns: Seq<NormalizedView>, others: Seq<NormalizedView>)
    requires
        forall|i: int| 0 <= i < ns.len() ==> has_id(others, #[trigger] ns[i].id),
    ensures
        split_by(ns, others, false) == Seq::<NormalizedView>::empty(),
        split_by(ns, others, true) == ns,
    decreases ns.len(),
{
    if ns.len() > 0 {
        assert(has_id(others, ns[ns.len() - 1].id));
        lemma_split_self(ns.drop_last(), others);
        assert(split_by(ns, others, false) =~= Seq::<NormalizedView>::empty());
        assert(split_by(ns, others, true) =~= ns.drop_last().push(ns.last()));
        assert(ns =~= ns.drop_last().push(ns.last()));
    } else {
        assert(split_by(ns, others, true) =~= ns);
    }
}

proof fn lemma_self_mismatches(ns: Seq<NormalizedView>, tool: Seq<NormalizedView>)
    requires
        forall|i: int|
            0 <= i < ns.len() ==> match index_of_id(tool, #[trigger] ns[i].id, 0) {
                Some(j) => tool[j] == ns[i],
                None => false,
            },
    ensures
        all_field_mismatches(ns, tool).len() == 0,
        all_structural_mismatches(ns, tool).len() == 0,
    decreases ns.len(),
{
    if ns.len() > 0 {
        let n = ns.last();
        assert(match index_of_id(tool, ns[ns.len() - 1].id, 0) {
            Some(j) => tool[j] == ns[ns.len() - 1],
            None => false,
        });
        lemma_self_mismatches(ns.drop_last(), tool);
        assert(field_mismatches(n, n) =~= Seq::<MismatchView>::empty());
        assert(structural_mismatches(n, n) =~= Seq::<MismatchView>::empty());
    }
}

/// Comparing a document with itself finds nothing: every node matches,
/// none is missing on either side, none is linked, and no field or
/// structure differs.
pub proof fn law_compare_with_itself(items: Seq<JsonValue>)
    ensures
        ({
            let c = comparison(items, items);
            &&& c.matched_node_count == c.api_node_count
            &&& c.api_node_count == c.tool_node_count
            &&& c.missing_in_tool.len() == 0
            &&& c.missing_in_api.len() == 0
            &&& c.node_id_mismatch_tool.len() == 0
            &&& c.node_id_mismatch_api.len() == 0
            &&& c.field_mismatches.len() == 0
            &&& c.structural_mismatches.len() == 0
        }),
{
    let s = flatten_items(items);
    law_flattened_ids_distinct(items);
    assert forall|i: int| 0 <= i < s.len() implies has_id(s, #[trigger] s[i].id) by {
        lemma_index_of_id_at(s, 0, i);
    }
    assert forall|i: int| 0 <= i < s.len() implies match index_of_id(s, #[trigger] s[i].id, 0) {
        Some(j) => s[j] == s[i],
        None => false,
    } by {
        lemma_index_of_id_at(s, 0, i);
    }
    lemma_split_self(s, s);
    lemma_self_mismatches(s, s);
    let empty = Seq::<NormalizedView>::empty();
    assert(sort_nodes(empty) =~= empty);
    assert(digest_links(empty, empty, s) =~= Seq::<(Seq<char>, Seq<char>)>::empty());
    assert(back_links(Seq::<(Seq<char>, Seq<char>)>::empty(), empty, Seq::<(Seq<char>, Seq<char>)>::empty()) =~= Seq::<(Seq<char>, Seq<char>)>::empty());
    assert(arch_links(empty, Seq::<(Seq<char>, Seq<char>)>::empty(), s, Seq::<(Seq<char>, Seq<char>)>::empty()) =~= Seq::<(Seq<char>, Seq<char>)>::empty());
}

proof fn lemma_key_index(m: Seq<(Seq<char>, Seq<char>)>, key: Seq<char>, k: int)
    requires
        0 <= k,
    ensures
        match key_index(m, key, k) {
            Some(i) => k <= i < m.len() && m[i].0 == key,
            None => forall|i: int| k <= i < m.len() ==> #[trigger] m[i].0 != key,
        },
    decreases m.len() - k,
{
    if k < m.len() && m[k].0 != key {
        lemma_key_index(m, key, k + 1);
    }
}

proof fn lemma_has_key_push(m: Seq<(Seq<char>, Seq<char>)>, x: (Seq<char>, Seq<char>), key: Seq<char>)
    ensures
        has_key(m.push(x), key) <==> (has_key(m, key) || x.0 == key),
{
    lemma_key_index(m, key, 0);
    lemma_key_index(m.push(x), key, 0);
    if has_key(m, key) {
        let i = key_index(m, key, 0)->0;
        assert(m.push(x)[i].0 == key);
    }
    if x.0 == key {
        assert(m.push(x)[m.len() as int].0 == key);
    }
    if has_key(m.push(x), key) {
        let i = key_index(m.push(x), key, 0)->0;
        if i < m.len() {
            assert(m[i].0 == key);
        }
    }
}

proof fn lemma_back_links_keys(
    fwd: Seq<(Seq<char>, Seq<char>)>,
    targets: Seq<NormalizedView>,
    acc: Seq<(Seq<char>, Seq<char>)>,
)
    ensures
        forall|key: Seq<char>| has_key(acc, key) ==> has_key(back_links(fwd, targets, acc), key),
        forall|i: int|
            0 <= i < fwd.len() && has_id(targets, #[trigger] fwd[i].1) ==> has_key(
                back_links(fwd, targets, acc),
                fwd[i].1,
            ),
    decreases fwd.len(),
{
    if fwd.len() > 0 {
        let prev = back_links(fwd.drop_last(), targets, acc);
        lemma_back_links_keys(fwd.drop_last(), targets, acc);
        let link = fwd.last();
        let r = back_links(fwd, targets, acc);
        if has_id(targets, link.1) && !has_key(prev, link.1) {
            assert forall|key: Seq<char>| has_key(prev, key) implies has_key(r, key) by {
                lemma_has_key_push(prev, (link.1, link.0), key);
            }
            lemma_has_key_push(prev, (link.1, link.0), link.1);
        }
        assert forall|i: int| 0 <= i < fwd.len() && has_id(targets, #[trigger] fwd[i].1) implies has_key(r, fwd[i].1) by {
            if i < fwd.len() - 1 {
                assert(fwd.drop_last()[i] == fwd[i]);
                if has_id(targets, link.1) && !has_key(prev, link.1) {
                    lemma_has_key_push(prev, (link.1, link.0), fwd[i].1);
                }
            } else if has_id(targets, link.1) && !has_key(prev, link.1) {
                lemma_has_key_push(prev, (link.1, link.0), link.1);
            }
        }
    }
}

proof fn lemma_arch_links_keys(
    ms: Seq<NormalizedView>,
    fwd: Seq<(Seq<char>, Seq<char>)>,
    api: Seq<NormalizedView>,
    acc: Seq<(Seq<char>, Seq<char>)>,
)
    ensures
        forall|key: Seq<char>| has_key(acc, key) ==> has_key(arch_links(ms, fwd, api, acc), key),
    decreases ms.len(),
{
    if ms.len() > 0 {
        let prev = arch_links(ms.drop_last(), fwd, api, acc);
        lemma_arch_links_keys(ms.drop_last(), fwd, api, acc);
        let t = ms.last();
        if !has_key(prev, t.id) {
            if let Some(a) = best_match(fwd, api, t, join(t.purl, " "@), 0, None) {
                assert forall|key: Seq<char>| has_key(prev, key) implies has_key(prev.push((t.id, a)), key) by {
                    lemma_has_key_push(prev, (t.id, a), key);
                }
            }
        }
    }
}

/// Law: links are mirrored. When a service node lacking in the tool is
/// linked to a tool node that the service lacks, that tool node is linked
/// back to a service node.
pub proof fn law_links_mirrored(api_items: Seq<JsonValue>, tool_items: Seq<JsonValue>)
    ensures
        ({
            let c = comparison(api_items, tool_items);
            forall|i: int|
                0 <= i < c.node_id_mismatch_tool.len() && has_id(
                    c.missing_in_api,
                    #[trigger] c.node_id_mismatch_tool[i].1,
                ) ==> has_key(c.node_id_mismatch_api, c.node_id_mismatch_tool[i].1)
        }),
{
    let api = flatten_items(api_items);
    let tool = flatten_items(tool_items);
    let missing_in_tool = sort_nodes(split_by(api, tool, false));
    let missing_in_api = sort_nodes(split_by(tool, api, false));
    let fwd = digest_links(missing_in_tool, missing_in_api, tool);
    let rev0 = digest_links(missing_in_api, missing_in_tool, api);
    let rev1 = back_links(fwd, missing_in_api, rev0);
    lemma_back_links_keys(fwd, missing_in_api, rev0);
    lemma_arch_links_keys(missing_in_api, fwd, api, rev1);
}

proof fn lemma_split_by_contains(ns: Seq<NormalizedView>, others: Seq<NormalizedView>, present: bool, x: NormalizedView)
    ensures
        split_by(ns, others, present).contains(x) <==> (ns.contains(x) && has_id(others, x.id) == present),
    decreases ns.len(),
{
    if ns.len() > 0 {
        lemma_split_by_contains(ns.drop_last(), others, present, x);
        let prev = split_by(ns.drop_last(), others, present);
        let last = ns.last();
        let tail = if has_id(others, last.id) == present {
            seq![last]
        } else {
            Seq::<NormalizedView>::empty()
        };
        let r = split_by(ns, others, present);
        assert(r == prev + tail);
        if r.contains(x) {
            let i = choose|i: int| 0 <= i < r.len() && r[i] == x;
            if i < prev.len() {
                assert(prev[i] == x);
                assert(prev.contains(x));
                assert(ns.drop_last().contains(x));
                let j = choose|j: int| 0 <= j < ns.drop_last().len() && ns.drop_last()[j] == x;
                assert(ns[j] == ns.drop_last()[j]);
            } else {
                assert(ns[ns.len() - 1] == x);
            }
        }
        if ns.contains(x) && has_id(others, x.id) == present {
            let j = choose|j: int| 0 <= j < ns.len() && ns[j] == x;
            if j < ns.len() - 1 {
                assert(ns.drop_last()[j] == x);
                assert(ns.drop_last().contains(x));
                assert(prev.contains(x));
                let i = choose|i: int| 0 <= i < prev.len() && prev[i] == x;
                assert(r[i] == x);
            } else {
                assert(r[prev.len() as int] == x);
            }
        }
    }
}

/// Law: the nodes reported missing on each side are exactly the nodes of
/// the other side whose id this side lacks, each as often as it occurs
/// there.
pub proof fn law_missing_nodes_exact(api_items: Seq<JsonValue>, tool_items: Seq<JsonValue>)
    ensures
        ({
            let c = comparison(api_items, tool_items);
            let api = flatten_items(api_items);
            let tool = flatten_items(tool_items);
            &&& forall|x: NormalizedView|
                c.missing_in_tool.contains(x) <==> (api.contains(x) && !has_id(tool, x.id))
            &&& forall|x: NormalizedView|
                c.missing_in_api.contains(x) <==> (tool.contains(x) && !has_id(api, x.id))
            &&& c.missing_in_tool.to_multiset() == split_by(api, tool, false).to_multiset()
            &&& c.missing_in_api.to_multiset() == split_by(tool, api, false).to_multiset()
        }),
{
    let api = flatten_items(api_items);
    let tool = flatten_items(tool_items);
    let mt = split_by(api, tool, false);
    let ma = split_by(tool, api, false);
    law_sort_nodes_ordered(mt);
    law_sort_nodes_ordered(ma);
    broadcast use vstd::seq_lib::group_to_multiset_ensures;
    assert forall|x: NormalizedView| sort_nodes(mt).contains(x) <==> (api.contains(x) && !has_id(tool, x.id)) by {
        lemma_split_by_contains(api, tool, false, x);
        assert(sort_nodes(mt).to_multiset().count(x) == mt.to_multiset().count(x));
    }
    assert forall|x: NormalizedView| sort_nodes(ma).contains(x) <==> (tool.contains(x) && !has_id(api, x.id)) by {
        lemma_split_by_contains(tool, api, false, x);
        assert(sort_nodes(ma).to_multiset().count(x) == ma.to_multiset().count(x));
    }
}

} // verus!
