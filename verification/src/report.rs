//! The Markdown report of a comparison, the rows of its CSV files and its
//! console summary, as text.

use vstd::prelude::*;
use crate::compare::{
    node_views, or_empty, root_or, root_or_exec, truncate, truncated, field_views, structural_views, FieldMismatch,
    MismatchView, NormalizedNode, NormalizedView, StructuralMismatch,
};
use crate::comparison::{
    comparison, key_index, key_index_exec, law_compare_with_itself, pair_views, ComparisonResult,
    ComparisonView,
};
use crate::json::JsonValue;
use crate::text::{decimal, decimal_string, join, join_strings, opt_str, str_eq};

verus! {

/// The position of the first entry from the `k`-th on with key `key`.
pub open spec fn tally_index<K>(t: Seq<(K, nat)>, key: K, k: int) -> Option<int>
    decreases t.len() - k,
{
    if k < 0 || k >= t.len() {
        None
    } else if t[k].0 == key {
        Some(k)
    } else {
        tally_index(t, key, k + 1)
    }
}

/// `t` with the count of `key` raised by one, or `(key, 1)` added at the end.
pub open spec fn bump<K>(t: Seq<(K, nat)>, key: K) -> Seq<(K, nat)> {
    match tally_index(t, key, 0) {
        Some(i) => t.update(i, (key, t[i].1 + 1)),
        None => t.push((key, 1)),
    }
}

/// Each distinct key with how often it occurs, in the order of first
/// occurrence.
pub open spec fn tally<K>(keys: Seq<K>) -> Seq<(K, nat)>
    decreases keys.len(),
{
    if keys.len() == 0 {
        Seq::empty()
    } else {
        bump(tally(keys.drop_last()), keys.last())
    }
}

/// The first position from `k` on of an entry counted less often than `n`.
pub open spec fn first_less(t: Seq<(Seq<char>, nat)>, n: nat, k: int) -> int
    decreases t.len() - k,
{
    if k < 0 || k >= t.len() {
        t.len() as int
    } else if t[k].1 < n {
        k
    } else {
        first_less(t, n, k + 1)
    }
}

/// The entries from the most counted to the least, entries counted
/// equally kept in their order (a stable sort).
pub open spec fn by_count_desc(t: Seq<(Seq<char>, nat)>) -> Seq<(Seq<char>, nat)>
    decreases t.len(),
{
    if t.len() == 0 {
        Seq::empty()
    } else {
        let s = by_count_desc(t.drop_last());
        let p = first_less(s, t.last().1, 0);
        s.take(p).push(t.last()) + s.skip(p)
    }
}

/// The first position from `k` on of an entry with a greater depth than `d`.
pub open spec fn first_deeper(t: Seq<(usize, nat)>, d: usize, k: int) -> int
    decreases t.len() - k,
{
    if k < 0 || k >= t.len() {
        t.len() as int
    } else if t[k].0 > d {
        k
    } else {
        first_deeper(t, d, k + 1)
    }
}

/// The entries in ascending order of depth.
pub open spec fn by_depth(t: Seq<(usize, nat)>) -> Seq<(usize, nat)>
    decreases t.len(),
{
    if t.len() == 0 {
        Seq::empty()
    } else {
        let s = by_depth(t.drop_last());
        let p = first_deeper(s, t.last().0, 0);
        s.take(p).push(t.last()) + s.skip(p)
    }
}

/// Counted text keys as characters.
pub open spec fn text_counts(v: Seq<(String, usize)>) -> Seq<(Seq<char>, nat)> {
    v.map_values(|e: (String, usize)| (e.0@, e.1 as nat))
}

/// Counted depths.
pub open spec fn depth_counts(v: Seq<(usize, usize)>) -> Seq<(usize, nat)> {
    v.map_values(|e: (usize, usize)| (e.0, e.1 as nat))
}

proof fn lemma_tally_bound<K>(keys: Seq<K>)
    ensures
        forall|i: int| 0 <= i < tally(keys).len() ==> #[trigger] tally(keys)[i].1 <= keys.len(),
    decreases keys.len(),
{
    if keys.len() > 0 {
        lemma_tally_bound(keys.drop_last());
        lemma_tally_index(tally(keys.drop_last()), keys.last(), 0);
    }
}

proof fn lemma_tally_index<K>(t: Seq<(K, nat)>, key: K, k: int)
    requires
        0 <= k,
    ensures
        match tally_index(t, key, k) {
            Some(i) => k <= i < t.len() && t[i].0 == key,
            None => true,
        },
    decreases t.len() - k,
{
    if k < t.len() && t[k].0 != key {
        lemma_tally_index(t, key, k + 1);
    }
}

/// Each distinct text with how often it occurs, in the order of first
/// occurrence.
pub fn tally_texts(keys: &Vec<String>) -> (r: Vec<(String, usize)>)
    ensures
        text_counts(r@) == tally(keys@.map_values(|s: String| s@)),
{
    let ghost kv = keys@.map_values(|s: String| s@);
    let mut r: Vec<(String, usize)> = Vec::new();
    let mut i: usize = 0;
    while i < keys.len()
        invariant
            i <= keys@.len(),
            kv == keys@.map_values(|s: String| s@),
            text_counts(r@) == tally(kv.take(i as int)),
        decreases keys.len() - i,
    {
        assert(kv.take(i + 1).drop_last() =~= kv.take(i as int));
        assert(kv.take(i + 1).last() == keys@[i as int]@);
        let ghost t = text_counts(r@);
        let key = &keys[i];
        proof {
            lemma_tally_bound(kv.take(i as int));
            lemma_tally_index(t, key@, 0);
        }
        let mut k: usize = 0;
        while k < r.len()
            invariant
                k <= r@.len(),
                t == text_counts(r@),
                tally_index(t, key@, 0) == tally_index(t, key@, k as int),
            ensures
                k <= r@.len(),
                tally_index(t, key@, 0) == if k < r@.len() { Some(k as int) } else { None::<int> },
            decreases r.len() - k,
        {
            assert(t[k as int] == (r@[k as int].0@, r@[k as int].1 as nat));
            if str_eq(r[k].0.as_str(), key.as_str()) {
                break;
            }
            k += 1;
        }
        if k < r.len() {
            assert(t[k as int].1 <= i);
            let n = r[k].1 + 1;
            let copy = key.clone();
            r.set(k, (copy, n));
            assert(text_counts(r@) =~= t.update(k as int, (kv[i as int], t[k as int].1 + 1)));
        } else {
            r.push((key.clone(), 1));
            assert(text_counts(r@) =~= t.push((kv[i as int], 1)));
        }
        i += 1;
    }
    assert(kv.take(keys@.len() as int) =~= kv);
    r
}

/// Each distinct depth with how often it occurs, in the order of first
/// occurrence.
pub fn tally_depths(keys: &Vec<usize>) -> (r: Vec<(usize, usize)>)
    ensures
        depth_counts(r@) == tally(keys@),
{
    let mut r: Vec<(usize, usize)> = Vec::new();
    let mut i: usize = 0;
    while i < keys.len()
        invariant
            i <= keys@.len(),
            depth_counts(r@) == tally(keys@.take(i as int)),
        decreases keys.len() - i,
    {
        assert(keys@.take(i + 1).drop_last() =~= keys@.take(i as int));
        let ghost t = depth_counts(r@);
        let d = keys[i];
        proof {
            lemma_tally_bound(keys@.take(i as int));
            lemma_tally_index(t, d, 0);
        }
        let mut k: usize = 0;
        while k < r.len()
            invariant
                k <= r@.len(),
                t == depth_counts(r@),
                tally_index(t, d, 0) == tally_index(t, d, k as int),
            ensures
                k <= r@.len(),
                tally_index(t, d, 0) == if k < r@.len() { Some(k as int) } else { None::<int> },
            decreases r.len() - k,
        {
            if r[k].0 == d {
                break;
            }
            k += 1;
        }
        if k < r.len() {
            assert(t[k as int].1 <= i);
            let n = r[k].1 + 1;
            r.set(k, (d, n));
            assert(depth_counts(r@) =~= t.update(k as int, (keys@[i as int], t[k as int].1 + 1)));
        } else {
            r.push((d, 1));
            assert(depth_counts(r@) =~= t.push((keys@[i as int], 1)));
        }
        i += 1;
    }
    assert(keys@.take(keys@.len() as int) =~= keys@);
    r
}

/// The entries from the most counted to the least, keeping the order of
/// equally counted ones.
pub fn sort_by_count_desc(v: Vec<(String, usize)>) -> (r: Vec<(String, usize)>)
    ensures
        text_counts(r@) == by_count_desc(text_counts(v@)),
{
    let ghost vv = text_counts(v@);
    let mut r: Vec<(String, usize)> = Vec::new();
    let mut rest = v;
    let n = rest.len();
    let mut i: usize = 0;
    while i < n
        invariant
            i <= n == vv.len(),
            text_counts(rest@) == vv.skip(i as int),
            rest@.len() == n - i,
            text_counts(r@) == by_count_desc(vv.take(i as int)),
        decreases n - i,
    {
        assert(vv.take(i + 1).drop_last() =~= vv.take(i as int));
        assert(text_counts(rest@)[0] == vv[i as int]);
        let ghost old_rest = rest@;
        let x = rest.remove(0);
        assert forall|j: int| 0 <= j < rest@.len() implies (#[trigger] rest@[j].0@, rest@[j].1 as nat) == vv.skip(i + 1)[j] by {
            assert(rest@[j] == old_rest[j + 1]);
            assert(text_counts(old_rest)[j + 1] == vv.skip(i as int)[j + 1]);
        }
        assert(text_counts(rest@) =~= vv.skip(i + 1));
        let ghost rv = text_counts(r@);
        let mut p: usize = 0;
        while p < r.len()
            invariant
                p <= r@.len(),
                rv == text_counts(r@),
                first_less(rv, x.1 as nat, 0) == first_less(rv, x.1 as nat, p as int),
            ensures
                p <= r@.len(),
                first_less(rv, x.1 as nat, 0) == p as int,
            decreases r.len() - p,
        {
            if r[p].1 < x.1 {
                break;
            }
            p += 1;
        }
        r.insert(p, x);
        assert(text_counts(r@) =~= rv.take(p as int).push(vv[i as int]) + rv.skip(p as int));
        i += 1;
    }
    assert(vv.take(n as int) =~= vv);
    r
}

/// The entries in ascending order of depth.
pub fn sort_by_depth(v: Vec<(usize, usize)>) -> (r: Vec<(usize, usize)>)
    ensures
        depth_counts(r@) == by_depth(depth_counts(v@)),
{
    let ghost vv = depth_counts(v@);
    let mut r: Vec<(usize, usize)> = Vec::new();
    let mut i: usize = 0;
    while i < v.len()
        invariant
            i <= v@.len(),
            vv == depth_counts(v@),
            depth_counts(r@) == by_depth(vv.take(i as int)),
        decreases v.len() - i,
    {
        assert(vv.take(i + 1).drop_last() =~= vv.take(i as int));
        let x = v[i];
        let ghost rv = depth_counts(r@);
        let mut p: usize = 0;
        while p < r.len()
            invariant
                p <= r@.len(),
                rv == depth_counts(r@),
                first_deeper(rv, x.0, 0) == first_deeper(rv, x.0, p as int),
            ensures
                p <= r@.len(),
                first_deeper(rv, x.0, 0) == p as int,
            decreases r.len() - p,
        {
            if r[p].0 > x.0 {
                break;
            }
            p += 1;
        }
        r.insert(p, x);
        assert(depth_counts(r@) =~= rv.take(p as int).push(vv[i as int]) + rv.skip(p as int));
        i += 1;
    }
    assert(vv.take(v@.len() as int) =~= vv);
    r
}

/// A table row of two cells.
pub open spec fn row2(a: Seq<char>, b: Seq<char>) -> Seq<char> {
    "| "@ + a + " | "@ + b + " |\n"@
}

/// A table row of four cells.
pub open spec fn row4(a: Seq<char>, b: Seq<char>, c: Seq<char>, d: Seq<char>) -> Seq<char> {
    "| "@ + a + " | "@ + b + " | "@ + c + " | "@ + d + " |\n"@
}

/// The first `n` elements, or all of them when there are fewer.
pub open spec fn first_n<A>(s: Seq<A>, n: nat) -> Seq<A> {
    if s.len() <= n {
        s
    } else {
        s.take(n as int)
    }
}

/// A row of counted texts.
pub open spec fn count_row(e: (Seq<char>, nat)) -> Seq<char> {
    row2(e.0, decimal(e.1))
}

/// A row of counted depths.
pub open spec fn depth_row(e: (usize, nat)) -> Seq<char> {
    row2(decimal(e.0 as nat), decimal(e.1))
}

/// A row of a node: id (to 60 bytes), name (to 40), depth, relationship.
pub open spec fn node_row(n: NormalizedView) -> Seq<char> {
    row4(truncated(n.id, 60), truncated(n.name, 40), decimal(n.depth as nat), root_or(n.relationship))
}

/// A row of a difference: node id (to 50 bytes), what differs, the two
/// values (to 40 each).
pub open spec fn mismatch_row(m: MismatchView) -> Seq<char> {
    row4(truncated(m.node_id, 50), m.kind, truncated(m.api_value, 40), truncated(m.tool_value, 40))
}

/// The rows of counted texts, one after another.
pub open spec fn count_rows(t: Seq<(Seq<char>, nat)>) -> Seq<char>
    decreases t.len(),
{
    if t.len() == 0 {
        Seq::empty()
    } else {
        count_rows(t.drop_last()) + count_row(t.last())
    }
}

/// The rows of counted depths, one after another.
pub open spec fn depth_rows(t: Seq<(usize, nat)>) -> Seq<char>
    decreases t.len(),
{
    if t.len() == 0 {
        Seq::empty()
    } else {
        depth_rows(t.drop_last()) + depth_row(t.last())
    }
}

/// The rows of nodes, one after another.
pub open spec fn node_rows(ns: Seq<NormalizedView>) -> Seq<char>
    decreases ns.len(),
{
    if ns.len() == 0 {
        Seq::empty()
    } else {
        node_rows(ns.drop_last()) + node_row(ns.last())
    }
}

/// The rows of differences, one after another.
pub open spec fn mismatch_rows(ms: Seq<MismatchView>) -> Seq<char>
    decreases ms.len(),
{
    if ms.len() == 0 {
        Seq::empty()
    } else {
        mismatch_rows(ms.drop_last()) + mismatch_row(ms.last())
    }
}

/// `s` can be cut to `max` bytes at a character boundary, or needs no cut.
pub open spec fn cuttable(s: Seq<char>, max: usize) -> bool {
    vstd::utf8::encode_utf8(s).len() <= max || (max >= 3 && vstd::utf8::is_char_boundary(
        vstd::utf8::encode_utf8(s),
        max - 3,
    ))
}

/// The cells of a node row can be cut as the row needs.
pub open spec fn node_row_cuttable(n: NormalizedView) -> bool {
    cuttable(n.id, 60) && cuttable(n.name, 40)
}

/// The cells of a difference row can be cut as the row needs.
pub open spec fn mismatch_row_cuttable(m: MismatchView) -> bool {
    cuttable(m.node_id, 50) && cuttable(m.api_value, 40) && cuttable(m.tool_value, 40)
}

/// Every row that the report shows can be cut as it needs.
pub open spec fn report_cuttable(c: ComparisonView) -> bool {
    &&& forall|i: int| 0 <= i < first_n(c.missing_in_tool, 20).len() ==> node_row_cuttable(
        #[trigger] first_n(c.missing_in_tool, 20)[i],
    )
    &&& forall|i: int| 0 <= i < c.missing_in_api.len() ==> node_row_cuttable(#[trigger] c.missing_in_api[i])
    &&& forall|i: int| 0 <= i < first_n(c.field_mismatches, 30).len() ==> mismatch_row_cuttable(
        #[trigger] first_n(c.field_mismatches, 30)[i],
    )
    &&& forall|i: int| 0 <= i < first_n(c.structural_mismatches, 20).len() ==> mismatch_row_cuttable(
        #[trigger] first_n(c.structural_mismatches, 20)[i],
    )
}

/// The relationship of each node, `(root)` for none.
pub open spec fn relationship_keys(ns: Seq<NormalizedView>) -> Seq<Seq<char>> {
    ns.map_values(|n: NormalizedView| root_or(n.relationship))
}

/// The depth of each node.
pub open spec fn depth_keys(ns: Seq<NormalizedView>) -> Seq<usize> {
    ns.map_values(|n: NormalizedView| n.depth)
}

/// What differs, for each difference.
pub open spec fn kind_keys(ms: Seq<MismatchView>) -> Seq<Seq<char>> {
    ms.map_values(|m: MismatchView| m.kind)
}

/// How many nodes carry warnings.
pub open spec fn with_warnings(ns: Seq<NormalizedView>) -> nat
    decreases ns.len(),
{
    if ns.len() == 0 {
        0
    } else {
        with_warnings(ns.drop_last()) + if ns.last().warnings.len() > 0 {
            1nat
        } else {
            0nat
        }
    }
}

/// The header of a node table.
pub open spec fn node_table_header() -> Seq<char> {
    "| Node ID | Name | Depth | Relationship |\n"@ + "|---------|------|-------|--------------|\n"@
}

/// The note on where the warnings of the service come from.
pub open spec fn warnings_note() -> Seq<char> {
    "**\n\nNote: The `has_warnings` and `warnings` fields in `missing_in_tool.csv` are sourced directly from the TPA API's analysis response. They indicate issues the API encountered while building its own graph (e.g. `\"Unable to resolve external node: ...\"`). These are not generated by Camp Ranger.\n"@
}

/// The summary table.
pub open spec fn summary_section(c: ComparisonView) -> Seq<char> {
    "## Summary\n\n"@ + "| Metric | Count |\n|--------|-------|\n"@ + row2("API total nodes"@, decimal(c.api_node_count))
        + row2("Tool total nodes"@, decimal(c.tool_node_count)) + row2(
        "Matched nodes"@,
        decimal(c.matched_node_count),
    ) + row2("Missing in tool"@, decimal(c.missing_in_tool.len())) + row2(
        "Missing in API"@,
        decimal(c.missing_in_api.len()),
    ) + row2("Field mismatches"@, decimal(c.field_mismatches.len())) + row2(
        "Structural mismatches"@,
        decimal(c.structural_mismatches.len()),
    )
}

/// The section on the nodes lacking in the tool: counts by relationship
/// (most frequent first) and by depth (ascending), how many carry
/// warnings, and the first 20 nodes. Nothing when there are none.
pub open spec fn missing_in_tool_section(ns: Seq<NormalizedView>) -> Seq<char> {
    if ns.len() == 0 {
        Seq::empty()
    } else {
        "\n## Nodes Missing in Tool\n\n"@ + "### By Relationship Type\n\n"@
            + "| Relationship | Count |\n|-------------|-------|\n"@ + count_rows(by_count_desc(tally(relationship_keys(ns)))) + "\n### By Depth Level\n\n"@ + "| Depth | Count |\n|-------|-------|\n"@ + depth_rows(by_depth(tally(depth_keys(ns))))
            + "\nNodes with warnings from TPA API (e.g. unable to resolve external references): **"@
            + decimal(with_warnings(ns)) + warnings_note() + "\n### Sample Missing Nodes (first 20)\n\n"@
            + node_table_header() + node_rows(first_n(ns, 20))
    }
}

/// The section on the nodes lacking in the service: all of them. Nothing
/// when there are none.
pub open spec fn missing_in_api_section(ns: Seq<NormalizedView>) -> Seq<char> {
    if ns.len() == 0 {
        Seq::empty()
    } else {
        "\n## Nodes Missing in API\n\n"@ + node_table_header() + node_rows(ns)
    }
}

/// The section on field differences: their number, counts by field (most
/// frequent first) and the first 30. Nothing when there are none.
pub open spec fn field_section(ms: Seq<MismatchView>) -> Seq<char> {
    if ms.len() == 0 {
        Seq::empty()
    } else {
        "\n## Field Mismatches\n\n"@ + "Found **"@ + decimal(ms.len())
            + "** field-level mismatches across matched nodes.\n\n"@ + "### By Field\n\n"@
            + "| Field | Mismatch Count |\n|-------|----------------|\n"@ + count_rows(by_count_desc(tally(kind_keys(ms)))) + "\n### Sample Mismatches (first 30)\n\n"@ + "| Node ID | Field | API Value | Tool Value |\n"@
            + "|---------|-------|-----------|------------|\n"@ + mismatch_rows(first_n(ms, 30))
    }
}

/// The section on structural differences: their number, counts by type
/// (in order of first occurrence) and the first 20. Nothing when there
/// are none.
pub open spec fn structural_section(ms: Seq<MismatchView>) -> Seq<char> {
    if ms.len() == 0 {
        Seq::empty()
    } else {
        "\n## Structural Mismatches\n\n"@ + "Found **"@ + decimal(ms.len())
            + "** structural mismatches (parent/children differ).\n\n"@ + "### By Type\n\n"@
            + "| Type | Count |\n|------|-------|\n"@ + count_rows(tally(kind_keys(ms))) + "\n### Sample Structural Mismatches (first 20)\n\n"@ + "| Node ID | Type | API | Tool |\n"@
            + "|---------|------|-----|------|\n"@ + mismatch_rows(first_n(ms, 20))
    }
}

/// How many differences the comparison found in all.
pub open spec fn total_differences(c: ComparisonView) -> nat {
    c.missing_in_tool.len() + c.missing_in_api.len() + c.field_mismatches.len()
        + c.structural_mismatches.len()
}

/// The closing section: all clear when nothing differs, else the number
/// of differences.
pub open spec fn verdict_section(c: ComparisonView) -> Seq<char> {
    "\n## Verdict\n\n"@ + if total_differences(c) == 0 {
        "**PASS** - API and tool outputs match perfectly.\n"@
    } else {
        "**"@ + decimal(total_differences(c))
            + " total differences found.** Review the details above and the CSV files for full data.\n"@
    }
}

/// The Markdown report of a comparison, stamped with the time `stamp`.
pub open spec fn report_text(c: ComparisonView, stamp: Seq<char>) -> Seq<char> {
    "# Comparison Report: API vs Tool Output\n\n"@ + "**Generated:** "@ + stamp + "\n\n"@
        + summary_section(c) + missing_in_tool_section(c.missing_in_tool) + missing_in_api_section(
        c.missing_in_api,
    ) + field_section(c.field_mismatches) + structural_section(c.structural_mismatches)
        + verdict_section(c)
}

fn push_row2(out: &mut String, a: &str, b: &str)
    ensures
        final(out)@ == old(out)@ + row2(a@, b@),
{
    out.append("| ");
    out.append(a);
    out.append(" | ");
    out.append(b);
    out.append(" |\n");
}

fn push_row4(out: &mut String, a: &str, b: &str, c: &str, d: &str)
    ensures
        final(out)@ == old(out)@ + row4(a@, b@, c@, d@),
{
    out.append("| ");
    out.append(a);
    out.append(" | ");
    out.append(b);
    out.append(" | ");
    out.append(c);
    out.append(" | ");
    out.append(d);
    out.append(" |\n");
}

fn push_count_rows(out: &mut String, t: &Vec<(String, usize)>)
    ensures
        final(out)@ == old(out)@ + count_rows(text_counts(t@)),
{
    let ghost tv = text_counts(t@);
    let ghost start = out@;
    let mut i: usize = 0;
    while i < t.len()
        invariant
            i <= t@.len(),
            tv == text_counts(t@),
            out@ == start + count_rows(tv.take(i as int)),
        decreases t.len() - i,
    {
        assert(tv.take(i + 1).drop_last() =~= tv.take(i as int));
        assert(tv.take(i + 1).last() == (t@[i as int].0@, t@[i as int].1 as nat));
        let n = decimal_string(t[i].1);
        push_row2(out, t[i].0.as_str(), n.as_str());
        i += 1;
    }
    assert(tv.take(t@.len() as int) =~= tv);
}

fn push_depth_rows(out: &mut String, t: &Vec<(usize, usize)>)
    ensures
        final(out)@ == old(out)@ + depth_rows(depth_counts(t@)),
{
    let ghost tv = depth_counts(t@);
    let ghost start = out@;
    let mut i: usize = 0;
    while i < t.len()
        invariant
            i <= t@.len(),
            tv == depth_counts(t@),
            out@ == start + depth_rows(tv.take(i as int)),
        decreases t.len() - i,
    {
        assert(tv.take(i + 1).drop_last() =~= tv.take(i as int));
        assert(tv.take(i + 1).last() == (t@[i as int].0, t@[i as int].1 as nat));
        let d = decimal_string(t[i].0);
        let n = decimal_string(t[i].1);
        push_row2(out, d.as_str(), n.as_str());
        i += 1;
    }
    assert(tv.take(t@.len() as int) =~= tv);
}

fn push_node_rows(out: &mut String, ns: &Vec<NormalizedNode>, n: usize)
    requires
        n <= ns@.len(),
        forall|i: int| 0 <= i < n ==> node_row_cuttable(#[trigger] node_views(ns@)[i]),
    ensures
        final(out)@ == old(out)@ + node_rows(node_views(ns@).take(n as int)),
{
    let ghost nv = node_views(ns@);
    let ghost start = out@;
    let mut i: usize = 0;
    while i < n
        invariant
            i <= n <= ns@.len(),
            nv == node_views(ns@),
            forall|j: int| 0 <= j < n ==> node_row_cuttable(#[trigger] nv[j]),
            out@ == start + node_rows(nv.take(i as int)),
        decreases n - i,
    {
        assert(nv.take(i + 1).drop_last() =~= nv.take(i as int));
        let node = &ns[i];
        assert(nv.take(i + 1).last() == node@);
        assert(node_row_cuttable(nv[i as int]));
        let id = truncate(node.normalized_node_id.as_str(), 60);
        let name = truncate(node.name.as_str(), 40);
        let depth = decimal_string(node.depth);
        let rel = root_or_exec(&node.relationship);
        push_row4(out, id.as_str(), name.as_str(), depth.as_str(), rel.as_str());
        i += 1;
    }
}

fn push_mismatch_row(out: &mut String, node_id: &String, kind: &String, api_value: &String, tool_value: &String)
    requires
        mismatch_row_cuttable(
            MismatchView { node_id: node_id@, kind: kind@, api_value: api_value@, tool_value: tool_value@ },
        ),
    ensures
        final(out)@ == old(out)@ + mismatch_row(
            MismatchView { node_id: node_id@, kind: kind@, api_value: api_value@, tool_value: tool_value@ },
        ),
{
    let id = truncate(node_id.as_str(), 50);
    let a = truncate(api_value.as_str(), 40);
    let t = truncate(tool_value.as_str(), 40);
    push_row4(out, id.as_str(), kind.as_str(), a.as_str(), t.as_str());
}

fn push_field_rows(out: &mut String, ms: &Vec<FieldMismatch>, n: usize)
    requires
        n <= ms@.len(),
        forall|i: int| 0 <= i < n ==> mismatch_row_cuttable(#[trigger] field_views(ms@)[i]),
    ensures
        final(out)@ == old(out)@ + mismatch_rows(field_views(ms@).take(n as int)),
{
    let ghost mv = field_views(ms@);
    let ghost start = out@;
    let mut i: usize = 0;
    while i < n
        invariant
            i <= n <= ms@.len(),
            mv == field_views(ms@),
            forall|j: int| 0 <= j < n ==> mismatch_row_cuttable(#[trigger] mv[j]),
            out@ == start + mismatch_rows(mv.take(i as int)),
        decreases n - i,
    {
        assert(mv.take(i + 1).drop_last() =~= mv.take(i as int));
        let m = &ms[i];
        assert(mv.take(i + 1).last() == m@);
        assert(mismatch_row_cuttable(mv[i as int]));
        push_mismatch_row(out, &m.node_id, &m.field_name, &m.api_value, &m.tool_value);
        i += 1;
    }
}

fn push_structural_rows(out: &mut String, ms: &Vec<StructuralMismatch>, n: usize)
    requires
        n <= ms@.len(),
        forall|i: int| 0 <= i < n ==> mismatch_row_cuttable(#[trigger] structural_views(ms@)[i]),
    ensures
        final(out)@ == old(out)@ + mismatch_rows(structural_views(ms@).take(n as int)),
{
    let ghost mv = structural_views(ms@);
    let ghost start = out@;
    let mut i: usize = 0;
    while i < n
        invariant
            i <= n <= ms@.len(),
            mv == structural_views(ms@),
            forall|j: int| 0 <= j < n ==> mismatch_row_cuttable(#[trigger] mv[j]),
            out@ == start + mismatch_rows(mv.take(i as int)),
        decreases n - i,
    {
        assert(mv.take(i + 1).drop_last() =~= mv.take(i as int));
        let m = &ms[i];
        assert(mv.take(i + 1).last() == m@);
        assert(mismatch_row_cuttable(mv[i as int]));
        push_mismatch_row(out, &m.node_id, &m.mismatch_type, &m.api_value, &m.tool_value);
        i += 1;
    }
}

fn relationship_keys_exec(ns: &Vec<NormalizedNode>) -> (r: Vec<String>)
    ensures
        r@.map_values(|s: String| s@) == relationship_keys(node_views(ns@)),
{
    let mut r: Vec<String> = Vec::new();
    let mut i: usize = 0;
    while i < ns.len()
        invariant
            i <= ns@.len(),
            r@.len() == i,
            forall|j: int| 0 <= j < i ==> #[trigger] r@[j]@ == root_or(opt_str(ns@[j].relationship)),
        decreases ns.len() - i,
    {
        r.push(root_or_exec(&ns[i].relationship));
        i += 1;
    }
    assert(r@.map_values(|s: String| s@) =~= relationship_keys(node_views(ns@)));
    r
}

fn depth_keys_exec(ns: &Vec<NormalizedNode>) -> (r: Vec<usize>)
    ensures
        r@ == depth_keys(node_views(ns@)),
{
    let mut r: Vec<usize> = Vec::new();
    let mut i: usize = 0;
    while i < ns.len()
        invariant
            i <= ns@.len(),
            r@.len() == i,
            forall|j: int| 0 <= j < i ==> #[trigger] r@[j] == ns@[j].depth,
        decreases ns.len() - i,
    {
        r.push(ns[i].depth);
        i += 1;
    }
    assert(r@ =~= depth_keys(node_views(ns@)));
    r
}

fn with_warnings_exec(ns: &Vec<NormalizedNode>) -> (r: usize)
    ensures
        r as nat == with_warnings(node_views(ns@)),
{
    let ghost nv = node_views(ns@);
    let mut n: usize = 0;
    let mut i: usize = 0;
    while i < ns.len()
        invariant
            i <= ns@.len(),
            nv == node_views(ns@),
            n <= i,
            n as nat == with_warnings(nv.take(i as int)),
        decreases ns.len() - i,
    {
        assert(nv.take(i + 1).drop_last() =~= nv.take(i as int));
        assert(nv.take(i + 1).last() == ns@[i as int]@);
        if ns[i].warnings.len() > 0 {
            n += 1;
        }
        i += 1;
    }
    assert(nv.take(ns@.len() as int) =~= nv);
    n
}

fn field_kinds(ms: &Vec<FieldMismatch>) -> (r: Vec<String>)
    ensures
        r@.map_values(|s: String| s@) == kind_keys(field_views(ms@)),
{
    let mut r: Vec<String> = Vec::new();
    let mut i: usize = 0;
    while i < ms.len()
        invariant
            i <= ms@.len(),
            r@.len() == i,
            forall|j: int| 0 <= j < i ==> #[trigger] r@[j]@ == ms@[j].field_name@,
        decreases ms.len() - i,
    {
        r.push(ms[i].field_name.clone());
        i += 1;
    }
    assert(r@.map_values(|s: String| s@) =~= kind_keys(field_views(ms@)));
    r
}

fn structural_kinds(ms: &Vec<StructuralMismatch>) -> (r: Vec<String>)
    ensures
        r@.map_values(|s: String| s@) == kind_keys(structural_views(ms@)),
{
    let mut r: Vec<String> = Vec::new();
    let mut i: usize = 0;
    while i < ms.len()
        invariant
            i <= ms@.len(),
            r@.len() == i,
            forall|j: int| 0 <= j < i ==> #[trigger] r@[j]@ == ms@[j].mismatch_type@,
        decreases ms.len() - i,
    {
        r.push(ms[i].mismatch_type.clone());
        i += 1;
    }
    assert(r@.map_values(|s: String| s@) =~= kind_keys(structural_views(ms@)));
    r
}

fn min_usize(a: usize, b: usize) -> (r: usize)
    ensures
        r == if a <= b { a } else { b },
{
    if a <= b {
        a
    } else {
        b
    }
}

#[verifier::spinoff_prover]
fn push_missing_in_tool_section(out: &mut String, ns: &Vec<NormalizedNode>)
    requires
        forall|i: int|
            0 <= i < first_n(node_views(ns@), 20).len() ==> node_row_cuttable(
                #[trigger] first_n(node_views(ns@), 20)[i],
            ),
    ensures
        final(out)@ == old(out)@ + missing_in_tool_section(node_views(ns@)),
{
    let ghost nv = node_views(ns@);
    let ghost start = out@;
    if ns.len() == 0 {
        assert(out@ =~= start + missing_in_tool_section(nv));
        return;
    }
    out.append("\n## Nodes Missing in Tool\n\n");
    out.append("### By Relationship Type\n\n");
    out.append("| Relationship | Count |\n|-------------|-------|\n");
    let rels = relationship_keys_exec(ns);
    let rel_counts = sort_by_count_desc(tally_texts(&rels));
    push_count_rows(out, &rel_counts);
    out.append("\n### By Depth Level\n\n");
    out.append("| Depth | Count |\n|-------|-------|\n");
    let depths = depth_keys_exec(ns);
    let depth_table = sort_by_depth(tally_depths(&depths));
    push_depth_rows(out, &depth_table);
    out.append("\nNodes with warnings from TPA API (e.g. unable to resolve external references): **");
    let w = decimal_string(with_warnings_exec(ns));
    out.append(w.as_str());
    out.append(
        "**\n\nNote: The `has_warnings` and `warnings` fields in `missing_in_tool.csv` are sourced directly from the TPA API's analysis response. They indicate issues the API encountered while building its own graph (e.g. `\"Unable to resolve external node: ...\"`). These are not generated by Camp Ranger.\n",
    );
    out.append("\n### Sample Missing Nodes (first 20)\n\n");
    out.append("| Node ID | Name | Depth | Relationship |\n");
    out.append("|---------|------|-------|--------------|\n");
    let n = min_usize(ns.len(), 20);
    assert(first_n(nv, 20) =~= nv.take(n as int));
    assert forall|i: int| 0 <= i < n implies node_row_cuttable(#[trigger] nv[i]) by {
        assert(first_n(nv, 20)[i] == nv[i]);
    }
    push_node_rows(out, ns, n);
    assert(out@ =~= start + missing_in_tool_section(nv));
}

fn push_missing_in_api_section(out: &mut String, ns: &Vec<NormalizedNode>)
    requires
        forall|i: int| 0 <= i < ns@.len() ==> node_row_cuttable(#[trigger] node_views(ns@)[i]),
    ensures
        final(out)@ == old(out)@ + missing_in_api_section(node_views(ns@)),
{
    let ghost nv = node_views(ns@);
    let ghost start = out@;
    if ns.len() == 0 {
        assert(out@ =~= start + missing_in_api_section(nv));
        return;
    }
    out.append("\n## Nodes Missing in API\n\n");
    out.append("| Node ID | Name | Depth | Relationship |\n");
    out.append("|---------|------|-------|--------------|\n");
    push_node_rows(out, ns, ns.len());
    assert(nv.take(ns@.len() as int) =~= nv);
    assert(out@ =~= start + missing_in_api_section(nv));
}

fn push_field_section(out: &mut String, ms: &Vec<FieldMismatch>)
    requires
        forall|i: int|
            0 <= i < first_n(field_views(ms@), 30).len() ==> mismatch_row_cuttable(
                #[trigger] first_n(field_views(ms@), 30)[i],
            ),
    ensures
        final(out)@ == old(out)@ + field_section(field_views(ms@)),
{
    let ghost mv = field_views(ms@);
    let ghost start = out@;
    if ms.len() == 0 {
        assert(out@ =~= start + field_section(mv));
        return;
    }
    out.append("\n## Field Mismatches\n\n");
    out.append("Found **");
    let count = decimal_string(ms.len());
    out.append(count.as_str());
    out.append("** field-level mismatches across matched nodes.\n\n");
    out.append("### By Field\n\n");
    out.append("| Field | Mismatch Count |\n|-------|----------------|\n");
    let kinds = field_kinds(ms);
    let counts = sort_by_count_desc(tally_texts(&kinds));
    push_count_rows(out, &counts);
    out.append("\n### Sample Mismatches (first 30)\n\n");
    out.append("| Node ID | Field | API Value | Tool Value |\n");
    out.append("|---------|-------|-----------|------------|\n");
    let n = min_usize(ms.len(), 30);
    assert(first_n(mv, 30) =~= mv.take(n as int));
    assert forall|i: int| 0 <= i < n implies mismatch_row_cuttable(#[trigger] mv[i]) by {
        assert(first_n(mv, 30)[i] == mv[i]);
    }
    push_field_rows(out, ms, n);
    assert(out@ =~= start + field_section(mv));
}

fn push_structural_section(out: &mut String, ms: &Vec<StructuralMismatch>)
    requires
        forall|i: int|
            0 <= i < first_n(structural_views(ms@), 20).len() ==> mismatch_row_cuttable(
                #[trigger] first_n(structural_views(ms@), 20)[i],
            ),
    ensures
        final(out)@ == old(out)@ + structural_section(structural_views(ms@)),
{
    let ghost mv = structural_views(ms@);
    let ghost start = out@;
    if ms.len() == 0 {
        assert(out@ =~= start + structural_section(mv));
        return;
    }
    out.append("\n## Structural Mismatches\n\n");
    out.append("Found **");
    let count = decimal_string(ms.len());
    out.append(count.as_str());
    out.append("** structural mismatches (parent/children differ).\n\n");
    out.append("### By Type\n\n");
    out.append("| Type | Count |\n|------|-------|\n");
    let kinds = structural_kinds(ms);
    let counts = tally_texts(&kinds);
    push_count_rows(out, &counts);
    out.append("\n### Sample Structural Mismatches (first 20)\n\n");
    out.append("| Node ID | Type | API | Tool |\n");
    out.append("|---------|------|-----|------|\n");
    let n = min_usize(ms.len(), 20);
    assert(first_n(mv, 20) =~= mv.take(n as int));
    assert forall|i: int| 0 <= i < n implies mismatch_row_cuttable(#[trigger] mv[i]) by {
        assert(first_n(mv, 20)[i] == mv[i]);
    }
    push_structural_rows(out, ms, n);
    assert(out@ =~= start + structural_section(mv));
}

fn push_summary_section(out: &mut String, result: &ComparisonResult)
    ensures
        final(out)@ == old(out)@ + summary_section(result@),
{
    let ghost start = out@;
    out.append("## Summary\n\n");
    out.append("| Metric | Count |\n|--------|-------|\n");
    let n = decimal_string(result.api_node_count);
    push_row2(out, "API total nodes", n.as_str());
    let n = decimal_string(result.tool_node_count);
    push_row2(out, "Tool total nodes", n.as_str());
    let n = decimal_string(result.matched_node_count);
    push_row2(out, "Matched nodes", n.as_str());
    let n = decimal_string(result.missing_in_tool.len());
    push_row2(out, "Missing in tool", n.as_str());
    let n = decimal_string(result.missing_in_api.len());
    push_row2(out, "Missing in API", n.as_str());
    let n = decimal_string(result.field_mismatches.len());
    push_row2(out, "Field mismatches", n.as_str());
    let n = decimal_string(result.structural_mismatches.len());
    push_row2(out, "Structural mismatches", n.as_str());
    assert(out@ =~= start + summary_section(result@));
}

fn push_verdict_section(out: &mut String, result: &ComparisonResult)
    ensures
        final(out)@ == old(out)@ + verdict_section(result@),
{
    let ghost start = out@;
    out.append("\n## Verdict\n\n");
    let total: u128 = result.missing_in_tool.len() as u128 + result.missing_in_api.len() as u128
        + result.field_mismatches.len() as u128 + result.structural_mismatches.len() as u128;
    if total == 0 {
        out.append("**PASS** - API and tool outputs match perfectly.\n");
    } else {
        out.append("**");
        let t = crate::text::decimal_string_wide(total);
        out.append(t.as_str());
        out.append(" total differences found.** Review the details above and the CSV files for full data.\n");
    }
    assert(out@ =~= start + verdict_section(result@));
}

/// `s` can be cut to `max` bytes at a character boundary, or needs no cut.
pub fn cuttable_exec(s: &str, max: usize) -> (r: bool)
    ensures
        r == cuttable(s@, max),
{
    s.as_bytes().len() <= max || (max >= 3 && s.is_char_boundary(max - 3))
}

fn node_rows_cuttable(ns: &Vec<NormalizedNode>, n: usize) -> (r: bool)
    requires
        n <= ns@.len(),
    ensures
        r == forall|i: int| 0 <= i < n ==> node_row_cuttable(#[trigger] node_views(ns@)[i]),
{
    let mut i: usize = 0;
    while i < n
        invariant
            i <= n <= ns@.len(),
            forall|j: int| 0 <= j < i ==> node_row_cuttable(#[trigger] node_views(ns@)[j]),
        decreases n - i,
    {
        assert(node_views(ns@)[i as int] == ns@[i as int]@);
        if !(cuttable_exec(ns[i].normalized_node_id.as_str(), 60) && cuttable_exec(ns[i].name.as_str(), 40)) {
            return false;
        }
        i += 1;
    }
    true
}

fn field_rows_cuttable(ms: &Vec<FieldMismatch>, n: usize) -> (r: bool)
    requires
        n <= ms@.len(),
    ensures
        r == forall|i: int| 0 <= i < n ==> mismatch_row_cuttable(#[trigger] field_views(ms@)[i]),
{
    let mut i: usize = 0;
    while i < n
        invariant
            i <= n <= ms@.len(),
            forall|j: int| 0 <= j < i ==> mismatch_row_cuttable(#[trigger] field_views(ms@)[j]),
        decreases n - i,
    {
        assert(field_views(ms@)[i as int] == ms@[i as int]@);
        let m = &ms[i];
        if !(cuttable_exec(m.node_id.as_str(), 50) && cuttable_exec(m.api_value.as_str(), 40) && cuttable_exec(
            m.tool_value.as_str(),
            40,
        )) {
            return false;
        }
        i += 1;
    }
    true
}

fn structural_rows_cuttable(ms: &Vec<StructuralMismatch>, n: usize) -> (r: bool)
    requires
        n <= ms@.len(),
    ensures
        r == forall|i: int| 0 <= i < n ==> mismatch_row_cuttable(#[trigger] structural_views(ms@)[i]),
{
    let mut i: usize = 0;
    while i < n
        invariant
            i <= n <= ms@.len(),
            forall|j: int| 0 <= j < i ==> mismatch_row_cuttable(#[trigger] structural_views(ms@)[j]),
        decreases n - i,
    {
        assert(structural_views(ms@)[i as int] == ms@[i as int]@);
        let m = &ms[i];
        if !(cuttable_exec(m.node_id.as_str(), 50) && cuttable_exec(m.api_value.as_str(), 40) && cuttable_exec(
            m.tool_value.as_str(),
            40,
        )) {
            return false;
        }
        i += 1;
    }
    true
}

/// Every row that the report of `result` shows can be cut where it needs
/// to be (see `report_cuttable`).
pub fn report_cuttable_exec(result: &ComparisonResult) -> (r: bool)
    ensures
        r == report_cuttable(result@),
{
    let ghost c = result@;
    let a = min_usize(result.missing_in_tool.len(), 20);
    let b = result.missing_in_api.len();
    let f = min_usize(result.field_mismatches.len(), 30);
    let s = min_usize(result.structural_mismatches.len(), 20);
    assert(first_n(c.missing_in_tool, 20) =~= c.missing_in_tool.take(a as int));
    assert(first_n(c.field_mismatches, 30) =~= c.field_mismatches.take(f as int));
    assert(first_n(c.structural_mismatches, 20) =~= c.structural_mismatches.take(s as int));
    let r1 = node_rows_cuttable(&result.missing_in_tool, a);
    let r2 = node_rows_cuttable(&result.missing_in_api, b);
    assert(c.missing_in_api.len() == b);
    let r3 = field_rows_cuttable(&result.field_mismatches, f);
    let r4 = structural_rows_cuttable(&result.structural_mismatches, s);
    proof {
        if r1 {
            assert forall|i: int| 0 <= i < first_n(c.missing_in_tool, 20).len() implies node_row_cuttable(
                #[trigger] first_n(c.missing_in_tool, 20)[i],
            ) by {
                assert(first_n(c.missing_in_tool, 20)[i] == c.missing_in_tool[i]);
            }
        } else {
            let i = choose|i: int| 0 <= i < a && !node_row_cuttable(#[trigger] c.missing_in_tool[i]);
            assert(first_n(c.missing_in_tool, 20)[i] == c.missing_in_tool[i]);
        }
        if r3 {
            assert forall|i: int| 0 <= i < first_n(c.field_mismatches, 30).len() implies mismatch_row_cuttable(
                #[trigger] first_n(c.field_mismatches, 30)[i],
            ) by {
                assert(first_n(c.field_mismatches, 30)[i] == c.field_mismatches[i]);
            }
        } else {
            let i = choose|i: int| 0 <= i < f && !mismatch_row_cuttable(#[trigger] c.field_mismatches[i]);
            assert(first_n(c.field_mismatches, 30)[i] == c.field_mismatches[i]);
        }
        if r4 {
            assert forall|i: int|
                0 <= i < first_n(c.structural_mismatches, 20).len() implies mismatch_row_cuttable(
                #[trigger] first_n(c.structural_mismatches, 20)[i],
            ) by {
                assert(first_n(c.structural_mismatches, 20)[i] == c.structural_mismatches[i]);
            }
        } else {
            let i = choose|i: int| 0 <= i < s && !mismatch_row_cuttable(#[trigger] c.structural_mismatches[i]);
            assert(first_n(c.structural_mismatches, 20)[i] == c.structural_mismatches[i]);
        }
    }
    assert(r1 == (forall|i: int| 0 <= i < first_n(c.missing_in_tool, 20).len() ==> node_row_cuttable(
        #[trigger] first_n(c.missing_in_tool, 20)[i],
    )));
    assert(r2 == (forall|i: int| 0 <= i < c.missing_in_api.len() ==> node_row_cuttable(#[trigger] c.missing_in_api[i])));
    assert(r3 == (forall|i: int| 0 <= i < first_n(c.field_mismatches, 30).len() ==> mismatch_row_cuttable(
        #[trigger] first_n(c.field_mismatches, 30)[i],
    )));
    assert(r4 == (forall|i: int| 0 <= i < first_n(c.structural_mismatches, 20).len() ==> mismatch_row_cuttable(
        #[trigger] first_n(c.structural_mismatches, 20)[i],
    )));
    r1 && r2 && r3 && r4
}

/// The Markdown report of a comparison, stamped with `stamp` (see
/// `report_text`). Rows cut their long cells to a number of bytes, which
/// must fall on a character boundary.
pub fn markdown_report(result: &ComparisonResult, stamp: &str) -> (r: String)
    requires
        report_cuttable(result@),
    ensures
        r@ == report_text(result@, stamp@),
{
    let mut out = String::new();
    out.append("# Comparison Report: API vs Tool Output\n\n");
    out.append("**Generated:** ");
    out.append(stamp);
    out.append("\n\n");
    push_summary_section(&mut out, result);
    push_missing_in_tool_section(&mut out, &result.missing_in_tool);
    push_missing_in_api_section(&mut out, &result.missing_in_api);
    push_field_section(&mut out, &result.field_mismatches);
    push_structural_section(&mut out, &result.structural_mismatches);
    push_verdict_section(&mut out, result);
    assert(out@ =~= report_text(result@, stamp@));
    out
}

/// A row of `missing_in_tool.csv`: a service node that the tool lacks.
#[derive(Debug)]
pub struct MissingInToolRecord {
    pub api_node_id: String,
    pub name: String,
    pub version: String,
    pub purl: String,
    pub cpe: String,
    pub published: String,
    pub relationship: String,
    pub depth_level: usize,
    pub sbom_id: String,
    pub document_id: String,
    pub has_warnings: String,
    pub warnings: String,
    pub node_id_mismatch: String,
    pub tool_node_id: String,
}

/// A row of `missing_in_api.csv`: a tool node that the service lacks.
#[derive(Debug)]
pub struct MissingInApiRecord {
    pub tool_node_id: String,
    pub name: String,
    pub version: String,
    pub purl: String,
    pub cpe: String,
    pub published: String,
    pub relationship: String,
    pub depth_level: usize,
    pub sbom_id: String,
    pub document_id: String,
    pub has_warnings: String,
    pub warnings: String,
    pub node_id_mismatch: String,
    pub api_node_id: String,
}

/// A row of a missing-node file as characters: the node's own id first,
/// the id it is linked to on the other side last.
pub struct RecordView {
    pub own_id: Seq<char>,
    pub name: Seq<char>,
    pub version: Seq<char>,
    pub purl: Seq<char>,
    pub cpe: Seq<char>,
    pub published: Seq<char>,
    pub relationship: Seq<char>,
    pub depth_level: usize,
    pub sbom_id: Seq<char>,
    pub document_id: Seq<char>,
    pub has_warnings: Seq<char>,
    pub warnings: Seq<char>,
    pub node_id_mismatch: Seq<char>,
    pub other_id: Seq<char>,
}

impl View for MissingInToolRecord {
    type V = RecordView;

    open spec fn view(&self) -> RecordView {
        RecordView {
            own_id: self.api_node_id@,
            name: self.name@,
            version: self.version@,
            purl: self.purl@,
            cpe: self.cpe@,
            published: self.published@,
            relationship: self.relationship@,
            depth_level: self.depth_level,
            sbom_id: self.sbom_id@,
            document_id: self.document_id@,
            has_warnings: self.has_warnings@,
            warnings: self.warnings@,
            node_id_mismatch: self.node_id_mismatch@,
            other_id: self.tool_node_id@,
        }
    }
}

impl View for MissingInApiRecord {
    type V = RecordView;

    open spec fn view(&self) -> RecordView {
        RecordView {
            own_id: self.tool_node_id@,
            name: self.name@,
            version: self.version@,
            purl: self.purl@,
            cpe: self.cpe@,
            published: self.published@,
            relationship: self.relationship@,
            depth_level: self.depth_level,
            sbom_id: self.sbom_id@,
            document_id: self.document_id@,
            has_warnings: self.has_warnings@,
            warnings: self.warnings@,
            node_id_mismatch: self.node_id_mismatch@,
            other_id: self.api_node_id@,
        }
    }
}

/// The id that `id` is linked to, if any.
pub open spec fn linked_id(links: Seq<(Seq<char>, Seq<char>)>, id: Seq<char>) -> Option<Seq<char>> {
    match key_index(links, id, 0) {
        Some(i) => Some(links[i].1),
        None => None,
    }
}

/// The row of a missing node: its fields, lists joined by `; `, absent
/// texts empty, `no` or `yes (n)` for its `n` warnings, and `yes` with the
/// id it is linked to, or `no` and nothing.
pub open spec fn record_of(n: NormalizedView, links: Seq<(Seq<char>, Seq<char>)>) -> RecordView {
    RecordView {
        own_id: n.id,
        name: n.name,
        version: n.version,
        purl: join(n.purl, "; "@),
        cpe: join(n.cpe, "; "@),
        published: n.published,
        relationship: or_empty(n.relationship),
        depth_level: n.depth,
        sbom_id: or_empty(n.sbom_id),
        document_id: or_empty(n.document_id),
        has_warnings: if n.warnings.len() == 0 {
            "no"@
        } else {
            "yes ("@ + decimal(n.warnings.len()) + ")"@
        },
        warnings: join(n.warnings, "; "@),
        node_id_mismatch: if linked_id(links, n.id) is Some {
            "yes"@
        } else {
            "no"@
        },
        other_id: or_empty(linked_id(links, n.id)),
    }
}

fn text_of(o: &Option<String>) -> (r: String)
    ensures
        r@ == or_empty(opt_str(*o)),
{
    match o {
        Some(t) => t.clone(),
        None => String::new(),
    }
}

fn tool_record(n: &NormalizedNode, links: &Vec<(String, String)>) -> (r: MissingInToolRecord)
    ensures
        r@ == record_of(n@, pair_views(links@)),
{
    let has_warnings = if n.warnings.len() == 0 {
        "no".to_owned()
    } else {
        let mut h = "yes (".to_owned();
        let k = decimal_string(n.warnings.len());
        h.append(k.as_str());
        h.append(")");
        h
    };
    let (flag, other) = match key_index_exec(links, n.normalized_node_id.as_str()) {
        Some(i) => ("yes".to_owned(), links[i].1.clone()),
        None => ("no".to_owned(), String::new()),
    };
    MissingInToolRecord {
        api_node_id: n.normalized_node_id.clone(),
        name: n.name.clone(),
        version: n.version.clone(),
        purl: join_strings(&n.purl, "; "),
        cpe: join_strings(&n.cpe, "; "),
        published: n.published.clone(),
        relationship: text_of(&n.relationship),
        depth_level: n.depth,
        sbom_id: text_of(&n.sbom_id),
        document_id: text_of(&n.document_id),
        has_warnings,
        warnings: join_strings(&n.warnings, "; "),
        node_id_mismatch: flag,
        tool_node_id: other,
    }
}

/// The rows of `missing_in_tool.csv`: one per node, in order (see
/// `record_of`), with the links from service ids to tool ids.
pub fn missing_in_tool_records(nodes: &Vec<NormalizedNode>, links: &Vec<(String, String)>) -> (r: Vec<
    MissingInToolRecord,
>)
    ensures
        r@.len() == nodes@.len(),
        forall|i: int| 0 <= i < nodes@.len() ==> #[trigger] r@[i]@ == record_of(nodes@[i]@, pair_views(links@)),
{
    let mut r: Vec<MissingInToolRecord> = Vec::new();
    let mut i: usize = 0;
    while i < nodes.len()
        invariant
            i <= nodes@.len(),
            r@.len() == i,
            forall|j: int| 0 <= j < i ==> #[trigger] r@[j]@ == record_of(nodes@[j]@, pair_views(links@)),
        decreases nodes.len() - i,
    {
        r.push(tool_record(&nodes[i], links));
        i += 1;
    }
    r
}

/// The rows of `missing_in_api.csv`: one per node, in order (see
/// `record_of`), with the links from tool ids to service ids.
pub fn missing_in_api_records(nodes: &Vec<NormalizedNode>, links: &Vec<(String, String)>) -> (r: Vec<
    MissingInApiRecord,
>)
    ensures
        r@.len() == nodes@.len(),
        forall|i: int| 0 <= i < nodes@.len() ==> #[trigger] r@[i]@ == record_of(nodes@[i]@, pair_views(links@)),
{
    let mut r: Vec<MissingInApiRecord> = Vec::new();
    let mut i: usize = 0;
    while i < nodes.len()
        invariant
            i <= nodes@.len(),
            r@.len() == i,
            forall|j: int| 0 <= j < i ==> #[trigger] r@[j]@ == record_of(nodes@[j]@, pair_views(links@)),
        decreases nodes.len() - i,
    {
        let t = tool_record(&nodes[i], links);
        r.push(MissingInApiRecord {
            tool_node_id: t.api_node_id,
            name: t.name,
            version: t.version,
            purl: t.purl,
            cpe: t.cpe,
            published: t.published,
            relationship: t.relationship,
            depth_level: t.depth_level,
            sbom_id: t.sbom_id,
            document_id: t.document_id,
            has_warnings: t.has_warnings,
            warnings: t.warnings,
            node_id_mismatch: t.node_id_mismatch,
            api_node_id: t.tool_node_id,
        });
        i += 1;
    }
    r
}

/// The double rule of the console summary.
pub open spec fn double_rule() -> Seq<char> {
    "════════════════════════════════════════════════\n"@
}

/// The console summary of a comparison: the node counts, then what
/// differs, each line ended by a new line, between empty lines.
pub open spec fn summary_text(c: ComparisonView) -> Seq<char> {
    "\n"@ + double_rule() + "  COMPARISON SUMMARY\n"@ + double_rule() + "API nodes:              "@ + decimal(
        c.api_node_count,
    ) + "\n"@ + "Tool nodes:             "@ + decimal(c.tool_node_count) + "\n"@ + "Matched:                "@
        + decimal(c.matched_node_count) + "\n"@ + "────────────────────────────────────────────────\n"@ + "Missing in tool:        "@ + decimal(
        c.missing_in_tool.len(),
    ) + " (see missing_in_tool.csv)\n"@ + "Missing in API:         "@ + decimal(c.missing_in_api.len())
        + " (see missing_in_api.csv)\n"@ + "Field mismatches:       "@ + decimal(c.field_mismatches.len())
        + (if c.field_mismatches.len() == 0 {
        ""@
    } else {
        " (see field_mismatches.csv)"@
    }) + "\n"@ + "Structural mismatches:  "@ + decimal(c.structural_mismatches.len()) + "\n"@ + double_rule()
        + "\n"@
}

/// The console summary of a comparison (see `summary_text`).
pub fn summary(result: &ComparisonResult) -> (r: String)
    ensures
        r@ == summary_text(result@),
{
    let mut r = "\n".to_owned();
    r.append("════════════════════════════════════════════════\n");
    r.append("  COMPARISON SUMMARY\n");
    r.append("════════════════════════════════════════════════\n");
    r.append("API nodes:              ");
    let n = decimal_string(result.api_node_count);
    r.append(n.as_str());
    r.append("\n");
    r.append("Tool nodes:             ");
    let n = decimal_string(result.tool_node_count);
    r.append(n.as_str());
    r.append("\n");
    r.append("Matched:                ");
    let n = decimal_string(result.matched_node_count);
    r.append(n.as_str());
    r.append("\n");
    r.append("────────────────────────────────────────────────\n");
    r.append("Missing in tool:        ");
    let n = decimal_string(result.missing_in_tool.len());
    r.append(n.as_str());
    r.append(" (see missing_in_tool.csv)\n");
    r.append("Missing in API:         ");
    let n = decimal_string(result.missing_in_api.len());
    r.append(n.as_str());
    r.append(" (see missing_in_api.csv)\n");
    r.append("Field mismatches:       ");
    let n = decimal_string(result.field_mismatches.len());
    r.append(n.as_str());
    if result.field_mismatches.len() == 0 {
        r.append("");
    } else {
        r.append(" (see field_mismatches.csv)");
    }
    r.append("\n");
    r.append("Structural mismatches:  ");
    let n = decimal_string(result.structural_mismatches.len());
    r.append(n.as_str());
    r.append("\n");
    r.append("════════════════════════════════════════════════\n");
    r.append("\n");
    assert(r@ =~= summary_text(result@));
    r
}

/// An ASCII decimal digit.
pub open spec fn ascii_digit(c: char) -> bool {
    '0' <= c && c <= '9'
}

/// The shape of a UTC time stamp `YYYY-MM-DD HH:MM:SS UTC`: a year of at
/// least four digits (a `+` in front of a year past 9999), then two-digit
/// month, day, hour, minute and second, and ` UTC`.
pub open spec fn utc_stamp_shape(s: Seq<char>) -> bool {
    &&& s.len() >= 23
    &&& forall|i: int| 0 <= i < s.len() - 19 ==> ascii_digit(#[trigger] s[i]) || (i == 0 && s[i] == '+')
    &&& ({
        let t = s.skip(s.len() - 19);
        &&& t[0] == '-' && ascii_digit(t[1]) && ascii_digit(t[2])
        &&& t[3] == '-' && ascii_digit(t[4]) && ascii_digit(t[5])
        &&& t[6] == ' ' && ascii_digit(t[7]) && ascii_digit(t[8])
        &&& t[9] == ':' && ascii_digit(t[10]) && ascii_digit(t[11])
        &&& t[12] == ':' && ascii_digit(t[13]) && ascii_digit(t[14])
        &&& t.skip(15) == " UTC"@
    })
}

/// The current time in UTC, as chrono's `Utc::now` formatted by
/// `%Y-%m-%d %H:%M:%S UTC`. Stated: the shape of the result (see
/// `utc_stamp_shape`); which time it shows is that of the call and is left
/// unsaid.
#[verifier::external_body]
fn utc_now_stamp() -> (r: String)
    ensures
        utc_stamp_shape(r@),
{
    chrono::Utc::now().format("%Y-%m-%d %H:%M:%S UTC").to_string()
}

/// The Markdown report of a comparison, stamped with the current time
/// (see `report_text` and `utc_stamp_shape`).
pub fn render_markdown_report(result: &ComparisonResult) -> (r: String)
    requires
        report_cuttable(result@),
    ensures
        exists|stamp: Seq<char>| utc_stamp_shape(stamp) && r@ == report_text(result@, stamp),
{
    let stamp = utc_now_stamp();
    markdown_report(result, stamp.as_str())
}

/// Law: the report of a document compared with itself lists no missing
/// node and no difference, and its verdict is a pass.
pub proof fn law_self_report_passes(items: Seq<JsonValue>)
    ensures
        ({
            let c = comparison(items, items);
            &&& missing_in_tool_section(c.missing_in_tool) == Seq::<char>::empty()
            &&& missing_in_api_section(c.missing_in_api) == Seq::<char>::empty()
            &&& field_section(c.field_mismatches) == Seq::<char>::empty()
            &&& structural_section(c.structural_mismatches) == Seq::<char>::empty()
            &&& verdict_section(c) == "\n## Verdict\n\n"@ + "**PASS** - API and tool outputs match perfectly.\n"@
        }),
{
    law_compare_with_itself(items);
}

proof fn lemma_first_less(t: Seq<(Seq<char>, nat)>, n: nat, k: int)
    requires
        0 <= k <= t.len(),
    ensures
        k <= first_less(t, n, k) <= t.len(),
        forall|m: int| k <= m < first_less(t, n, k) ==> #[trigger] t[m].1 >= n,
        first_less(t, n, k) < t.len() ==> t[first_less(t, n, k)].1 < n,
    decreases t.len() - k,
{
    if k < t.len() && t[k].1 >= n {
        lemma_first_less(t, n, k + 1);
    }
}

/// Law: the counted entries come out from the most counted to the least,
/// and they are the same entries, each as often.
pub proof fn law_by_count_desc_ordered(t: Seq<(Seq<char>, nat)>)
    ensures
        forall|i: int, j: int| 0 <= i < j < by_count_desc(t).len() ==> #[trigger] by_count_desc(t)[i].1
            >= #[trigger] by_count_desc(t)[j].1,
        by_count_desc(t).to_multiset() == t.to_multiset(),
    decreases t.len(),
{
    if t.len() > 0 {
        let prev = by_count_desc(t.drop_last());
        law_by_count_desc_ordered(t.drop_last());
        let x = t.last();
        let p = first_less(prev, x.1, 0);
        lemma_first_less(prev, x.1, 0);
        let r = prev.take(p).push(x) + prev.skip(p);
        assert(by_count_desc(t) == r);
        assert forall|i: int, j: int| 0 <= i < j < r.len() implies #[trigger] r[i].1 >= #[trigger] r[j].1 by {
            if j < p {
                assert(r[i] == prev[i] && r[j] == prev[j]);
            } else if j == p {
                assert(r[j] == x && r[i] == prev[i]);
            } else if i < p {
                assert(r[i] == prev[i] && r[j] == prev[j - 1]);
                assert(prev[i].1 >= prev[j - 1].1);
            } else if i == p {
                assert(r[i] == x && r[j] == prev[j - 1]);
                assert(prev[p].1 < x.1);
                if j - 1 > p {
                    assert(prev[p].1 >= prev[j - 1].1);
                }
            } else {
                assert(r[i] == prev[i - 1] && r[j] == prev[j - 1]);
            }
        }
        assert(prev =~= prev.take(p) + prev.skip(p));
        vstd::seq_lib::lemma_multiset_commutative(prev.take(p).push(x), prev.skip(p));
        vstd::seq_lib::lemma_multiset_commutative(prev.take(p), prev.skip(p));
        assert(t =~= t.drop_last().push(x));
        broadcast use vstd::seq_lib::group_to_multiset_ensures;
        assert(r.to_multiset() =~= prev.to_multiset().insert(x));
    } else {
        assert(by_count_desc(t) =~= t);
    }
}

proof fn lemma_first_deeper(t: Seq<(usize, nat)>, d: usize, k: int)
    requires
        0 <= k <= t.len(),
    ensures
        k <= first_deeper(t, d, k) <= t.len(),
        forall|m: int| k <= m < first_deeper(t, d, k) ==> #[trigger] t[m].0 <= d,
        first_deeper(t, d, k) < t.len() ==> t[first_deeper(t, d, k)].0 > d,
    decreases t.len() - k,
{
    if k < t.len() && t[k].0 <= d {
        lemma_first_deeper(t, d, k + 1);
    }
}

/// Law: the counted depths come out in ascending order of depth, and they
/// are the same entries, each as often.
pub proof fn law_by_depth_ascending(t: Seq<(usize, nat)>)
    ensures
        forall|i: int, j: int| 0 <= i < j < by_depth(t).len() ==> #[trigger] by_depth(t)[i].0
            <= #[trigger] by_depth(t)[j].0,
        by_depth(t).to_multiset() == t.to_multiset(),
    decreases t.len(),
{
    if t.len() > 0 {
        let prev = by_depth(t.drop_last());
        law_by_depth_ascending(t.drop_last());
        let x = t.last();
        let p = first_deeper(prev, x.0, 0);
        lemma_first_deeper(prev, x.0, 0);
        let r = prev.take(p).push(x) + prev.skip(p);
        assert(by_depth(t) == r);
        assert forall|i: int, j: int| 0 <= i < j < r.len() implies #[trigger] r[i].0 <= #[trigger] r[j].0 by {
            if j < p {
                assert(r[i] == prev[i] && r[j] == prev[j]);
            } else if j == p {
                assert(r[j] == x && r[i] == prev[i]);
            } else if i < p {
                assert(r[i] == prev[i] && r[j] == prev[j - 1]);
                assert(prev[i].0 <= prev[j - 1].0);
            } else if i == p {
                assert(r[i] == x && r[j] == prev[j - 1]);
                assert(prev[p].0 > x.0);
                if j - 1 > p {
                    assert(prev[p].0 <= prev[j - 1].0);
                }
            } else {
                assert(r[i] == prev[i - 1] && r[j] == prev[j - 1]);
            }
        }
        assert(prev =~= prev.take(p) + prev.skip(p));
        vstd::seq_lib::lemma_multiset_commutative(prev.take(p).push(x), prev.skip(p));
        vstd::seq_lib::lemma_multiset_commutative(prev.take(p), prev.skip(p));
        assert(t =~= t.drop_last().push(x));
        broadcast use vstd::seq_lib::group_to_multiset_ensures;
        assert(r.to_multiset() =~= prev.to_multiset().insert(x));
    } else {
        assert(by_depth(t) =~= t);
    }
}

proof fn lemma_tally_index_none<K>(t: Seq<(K, nat)>, key: K, k: int)
    requires
        0 <= k,
        tally_index(t, key, k) is None,
    ensures
        forall|i: int| k <= i < t.len() ==> #[trigger] t[i].0 != key,
    decreases t.len() - k,
{
    if k < t.len() {
        lemma_tally_index_none(t, key, k + 1);
    }
}

/// Law: a tally holds each key once, with the number of times it occurs,
/// and holds every key that occurs.
pub proof fn law_tally_counts<K>(keys: Seq<K>)
    ensures
        forall|i: int, j: int| 0 <= i < j < tally(keys).len() ==> #[trigger] tally(keys)[i].0 != #[trigger] tally(keys)[j].0,
        forall|i: int| 0 <= i < tally(keys).len() ==> #[trigger] tally(keys)[i].1 == keys.to_multiset().count(tally(keys)[i].0),
        forall|x: K| keys.contains(x) ==> exists|i: int| 0 <= i < tally(keys).len() && #[trigger] tally(keys)[i].0 == x,
    decreases keys.len(),
{
    broadcast use vstd::seq_lib::group_to_multiset_ensures;
    if keys.len() > 0 {
        let prev = keys.drop_last();
        let x = keys.last();
        law_tally_counts(prev);
        let t = tally(prev);
        let r = tally(keys);
        assert(keys =~= prev.push(x));
        assert(keys.to_multiset() =~= prev.to_multiset().insert(x));
        lemma_tally_index(t, x, 0);
        match tally_index(t, x, 0) {
            Some(i) => {
                assert(r == t.update(i, (x, t[i].1 + 1)));
                assert forall|a: int| 0 <= a < r.len() implies #[trigger] r[a].1 == keys.to_multiset().count(r[a].0) by {
                    if a != i {
                        assert(r[a] == t[a]);
                        assert(t[a].0 != x);
                    }
                }
                assert forall|y: K| keys.contains(y) implies exists|a: int| 0 <= a < r.len() && #[trigger] r[a].0 == y by {
                    if y == x {
                        assert(r[i].0 == y);
                    } else {
                        let k = choose|k: int| 0 <= k < keys.len() && keys[k] == y;
                        assert(prev[k] == y);
                        assert(prev.contains(y));
                        let a = choose|a: int| 0 <= a < t.len() && #[trigger] t[a].0 == y;
                        assert(r[a].0 == y);
                    }
                }
            },
            None => {
                lemma_tally_index_none(t, x, 0);
                assert(r == t.push((x, 1nat)));
                assert(!prev.contains(x)) by {
                    if prev.contains(x) {
                        let a = choose|a: int| 0 <= a < t.len() && #[trigger] t[a].0 == x;
                    }
                }
                assert(prev.to_multiset().count(x) == 0);
                assert forall|a: int| 0 <= a < r.len() implies #[trigger] r[a].1 == keys.to_multiset().count(r[a].0) by {
                    if a < t.len() {
                        assert(r[a] == t[a]);
                    }
                }
                assert forall|y: K| keys.contains(y) implies exists|a: int| 0 <= a < r.len() && #[trigger] r[a].0 == y by {
                    if y == x {
                        assert(r[t.len() as int].0 == y);
                    } else {
                        let k = choose|k: int| 0 <= k < keys.len() && keys[k] == y;
                        assert(prev[k] == y);
                        assert(prev.contains(y));
                        let a = choose|a: int| 0 <= a < t.len() && #[trigger] t[a].0 == y;
                        assert(r[a].0 == y);
                    }
                }
            },
        }
    }
}

} // verus!
