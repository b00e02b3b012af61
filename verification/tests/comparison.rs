use camp_ranger::compare::{
    compare_fields, compare_structure, extract_sha256, normalize_node_id, normalize_purl,
    normalize_purl_set, normalize_timestamp, strip_id_qualifiers, strip_purl_qualifiers, truncate,
    NormalizedNode,
};
use camp_ranger::comparison::{compare_hierarchies, CompareError, ComparisonResult};
use camp_ranger::json::{extract_json_string_array, JsonValue};
use camp_ranger::report::{
    cuttable_exec, markdown_report, missing_in_api_records, missing_in_tool_records,
    render_markdown_report, report_cuttable_exec, summary,
};

fn text(s: &str) -> JsonValue {
    JsonValue::Str(s.to_string())
}

fn texts(v: &[&str]) -> JsonValue {
    JsonValue::Array(v.iter().map(|s| text(s)).collect())
}

fn object(members: Vec<(&str, JsonValue)>) -> JsonValue {
    JsonValue::Object(members.into_iter().map(|(k, v)| (k.to_string(), v)).collect())
}

fn node(id: &str, name: &str, version: &str, rel: Option<&str>, purls: &[&str], children: Vec<JsonValue>) -> JsonValue {
    let mut members = vec![
        ("node_id", text(id)),
        ("name", text(name)),
        ("version", text(version)),
        ("purl", texts(purls)),
        ("cpe", texts(&["cpe:/a:redhat:app:1"])),
        ("published", text("2025-12-02 12:05:38+00")),
        ("descendants", JsonValue::Array(children)),
    ];
    if let Some(r) = rel {
        members.push(("relationship", text(r)));
    }
    object(members)
}

fn doc(items: Vec<JsonValue>) -> JsonValue {
    object(vec![("items", JsonValue::Array(items))])
}

fn digest(c: char) -> String {
    std::iter::repeat(c).take(64).collect()
}

fn api_doc() -> JsonValue {
    let a = digest('a');
    let b = digest('b');
    let root = format!("pkg:oci/app@sha256:{}?arch=amd64", a);
    let x = format!("pkg:oci/x@sha256:{}", b);
    doc(vec![node(
        &root,
        "app",
        "1.0",
        None,
        &[&root],
        vec![
            node("pkg:rpm/redhat/zlib@1.2.11", "zlib", "1.2.11", Some("package"), &["pkg:rpm/redhat/zlib@1.2.11"], vec![]),
            node(&x, "x", "1", Some("package"), &[&x], vec![]),
        ],
    )])
}

fn tool_doc() -> JsonValue {
    let a = digest('a');
    let b = digest('b');
    let root = format!("pkg:oci/app@sha256:{}?arch=arm64", a);
    let y = format!("pkg:oci/y@sha256:{}", b);
    doc(vec![node(
        &root,
        "app",
        "2.0",
        None,
        &[&root],
        vec![
            node("pkg:rpm/redhat/zlib@1.2.11", "zlib", "1.2.11", Some("package"), &["pkg:rpm/redhat/zlib@1.2.11"], vec![]),
            node(&y, "y", "1", Some("package"), &[&y], vec![]),
        ],
    )])
}

fn plain_node(id: &str, name: &str) -> NormalizedNode {
    NormalizedNode {
        normalized_node_id: id.to_string(),
        name: name.to_string(),
        version: "1".to_string(),
        purl: vec![],
        cpe: vec![],
        published: String::new(),
        relationship: None,
        depth: 0,
        sbom_id: None,
        document_id: None,
        warnings: vec![],
        parent_normalized_id: None,
        children_normalized_ids: vec![],
    }
}

fn compared() -> ComparisonResult {
    match compare_hierarchies(&api_doc(), &tool_doc()) {
        Ok(r) => r,
        Err(e) => panic!("comparison failed: {:?}", e),
    }
}

#[test]
fn normalize_node_id_drops_purl_qualifiers_and_decodes() {
    assert_eq!(normalize_node_id("pkg:oci/app@sha256%3Aabc?arch=amd64"), "pkg:oci/app@sha256:abc");
    assert_eq!(normalize_node_id("cpe:/a:redhat?x=1"), "cpe:/a:redhat?x=1");
    assert_eq!(normalize_node_id("pkg:golang/a@v1%2Bincompatible"), "pkg:golang/a@v1+incompatible");
}

#[test]
fn strip_qualifiers_after_decoding() {
    assert_eq!(strip_id_qualifiers("pkg:rpm/x@1?arch=x86_64".to_string()), "pkg:rpm/x@1");
    assert_eq!(strip_id_qualifiers("other?arch=x86_64".to_string()), "other?arch=x86_64");
    assert_eq!(strip_purl_qualifiers("other?arch=x86_64"), "other");
}

#[test]
fn normalize_purl_decodes_and_cuts() {
    assert_eq!(normalize_purl("pkg:rpm/redhat/zlib@1.2%2B3?arch=x86_64"), "pkg:rpm/redhat/zlib@1.2+3");
    assert_eq!(normalize_purl("plain"), "plain");
}

#[test]
fn normalize_purl_set_sorts_and_dedups() {
    let purls = vec![
        "pkg:b@1?arch=amd64".to_string(),
        "pkg:a@1".to_string(),
        "pkg:b@1?arch=arm64".to_string(),
    ];
    assert_eq!(normalize_purl_set(&purls), vec!["pkg:a@1".to_string(), "pkg:b@1".to_string()]);
    assert!(normalize_purl_set(&[]).is_empty());
}

#[test]
fn extract_sha256_needs_64_hex_digits() {
    let d = digest('f');
    let id = format!("pkg:oci/x@sha256:{}?arch=amd64", d);
    assert_eq!(extract_sha256(&id), Some(d.as_str()));
    assert_eq!(extract_sha256("pkg:oci/x@sha256:abc123"), None);
    assert_eq!(extract_sha256("no digest"), None);
    let longer = format!("sha256:{}00", d);
    assert_eq!(extract_sha256(&longer), Some(d.as_str()));
}

#[test]
fn normalize_timestamp_rewrites_database_form() {
    assert_eq!(normalize_timestamp("2025-12-02 12:05:38+00"), "2025-12-02T12:05:38Z");
    assert_eq!(normalize_timestamp("2025-12-02T12:05:38Z"), "2025-12-02T12:05:38Z");
    assert_eq!(normalize_timestamp("2025-12-02 12:05:38"), "2025-12-02 12:05:38");
}

#[test]
fn truncate_marks_the_cut() {
    assert_eq!(truncate("abcdef", 10), "abcdef");
    assert_eq!(truncate("abcdef", 6), "abcdef");
    assert_eq!(truncate("abcdefgh", 6), "abc...");
    assert!(cuttable_exec("abcdefgh", 6));
    assert!(!cuttable_exec("ééééé", 6));
}

#[test]
fn extract_json_string_array_keeps_strings() {
    let v = JsonValue::Array(vec![text("a"), JsonValue::Null, text("b")]);
    assert_eq!(extract_json_string_array(&v), vec!["a".to_string(), "b".to_string()]);
    assert!(extract_json_string_array(&text("a")).is_empty());
}

#[test]
fn compare_fields_reports_each_field_in_order() {
    let mut a = plain_node("id", "one");
    let mut t = plain_node("id", "two");
    a.cpe = vec!["b".to_string(), "a".to_string()];
    t.cpe = vec!["a".to_string()];
    a.purl = vec!["pkg:x@1?arch=amd64".to_string()];
    t.purl = vec!["pkg:x@1".to_string()];
    t.relationship = Some("package".to_string());
    let m = compare_fields(&a, &t);
    assert_eq!(m.len(), 3);
    assert_eq!(m[0].field_name, "name");
    assert_eq!(m[0].api_value, "one");
    assert_eq!(m[0].tool_value, "two");
    assert_eq!(m[1].field_name, "cpe");
    assert_eq!(m[1].api_value, "a; b");
    assert_eq!(m[1].tool_value, "a");
    assert_eq!(m[2].field_name, "relationship");
    assert_eq!(m[2].api_value, "");
    assert_eq!(m[2].tool_value, "package");
    assert!(compare_fields(&a, &a).is_empty());
}

#[test]
fn compare_structure_reports_parent_and_children() {
    let mut a = plain_node("id", "n");
    let mut t = plain_node("id", "n");
    a.parent_normalized_id = Some("p".to_string());
    a.children_normalized_ids = vec!["c1".to_string(), "c2".to_string(), "c2".to_string()];
    t.children_normalized_ids = vec!["c1".to_string(), "c3".to_string()];
    let m = compare_structure(&a, &t);
    assert_eq!(m.len(), 2);
    assert_eq!(m[0].mismatch_type, "parent_differs");
    assert_eq!(m[0].api_value, "p");
    assert_eq!(m[0].tool_value, "(root)");
    assert_eq!(m[1].mismatch_type, "children_differ");
    assert_eq!(m[1].api_value, "3 children (1 only in API)");
    assert_eq!(m[1].tool_value, "2 children (1 only in tool)");
}

#[test]
fn compare_structure_ignores_multiplicity_only_differences() {
    let mut a = plain_node("id", "n");
    let mut t = plain_node("id", "n");
    a.children_normalized_ids = vec!["c1".to_string(), "c1".to_string()];
    t.children_normalized_ids = vec!["c1".to_string()];
    assert!(compare_structure(&a, &t).is_empty());
}

#[test]
fn compare_hierarchies_counts_and_mismatches() {
    let r = compared();
    assert_eq!(r.api_node_count, 3);
    assert_eq!(r.tool_node_count, 3);
    assert_eq!(r.matched_node_count, 2);
    assert_eq!(r.missing_in_tool.len(), 1);
    assert_eq!(r.missing_in_tool[0].name, "x");
    assert_eq!(r.missing_in_tool[0].depth, 1);
    assert_eq!(r.missing_in_api.len(), 1);
    assert_eq!(r.missing_in_api[0].name, "y");
    assert_eq!(r.field_mismatches.len(), 1);
    assert_eq!(r.field_mismatches[0].field_name, "version");
    assert_eq!(r.field_mismatches[0].api_value, "1.0");
    assert_eq!(r.field_mismatches[0].tool_value, "2.0");
    assert_eq!(r.structural_mismatches.len(), 1);
    assert_eq!(r.structural_mismatches[0].api_value, "2 children (1 only in API)");
    assert_eq!(r.structural_mismatches[0].tool_value, "2 children (1 only in tool)");
}

#[test]
fn compare_hierarchies_links_same_digest() {
    let r = compared();
    let b = digest('b');
    let x = format!("pkg:oci/x@sha256:{}", b);
    let y = format!("pkg:oci/y@sha256:{}", b);
    assert_eq!(r.node_id_mismatch_tool, vec![(x.clone(), y.clone())]);
    assert_eq!(r.node_id_mismatch_api, vec![(y, x)]);
}

#[test]
fn compare_hierarchies_flattens_published_and_parent() {
    let r = compared();
    assert_eq!(r.missing_in_tool[0].published, "2025-12-02T12:05:38Z");
    let a = digest('a');
    assert_eq!(r.missing_in_tool[0].parent_normalized_id, Some(format!("pkg:oci/app@sha256:{}", a)));
}

#[test]
fn compare_hierarchies_rejects_missing_items() {
    let empty = object(vec![]);
    assert_eq!(compare_hierarchies(&empty, &tool_doc()).err(), Some(CompareError::ApiItemsMissing));
    assert_eq!(compare_hierarchies(&api_doc(), &empty).err(), Some(CompareError::ToolItemsMissing));
    assert_eq!(CompareError::ApiItemsMissing.message(), "API response missing 'items' array");
    assert_eq!(CompareError::ToolItemsMissing.message(), "Tool response missing 'items' array");
}

#[test]
fn compare_with_itself_finds_nothing() {
    let r = compare_hierarchies(&api_doc(), &api_doc()).unwrap();
    assert_eq!(r.matched_node_count, r.api_node_count);
    assert!(r.missing_in_tool.is_empty());
    assert!(r.missing_in_api.is_empty());
    assert!(r.field_mismatches.is_empty());
    assert!(r.structural_mismatches.is_empty());
    assert!(r.node_id_mismatch_tool.is_empty());
    assert!(r.node_id_mismatch_api.is_empty());
    let report = markdown_report(&r, "2025-01-01 00:00:00 UTC");
    assert!(report.ends_with("\n## Verdict\n\n**PASS** - API and tool outputs match perfectly.\n"));
    assert!(!report.contains("## Nodes Missing in Tool"));
}

#[test]
fn duplicate_ids_are_flattened_once() {
    let d = doc(vec![
        node("pkg:a@1", "a", "1", None, &[], vec![]),
        node("pkg:a@1?arch=x", "a2", "1", None, &[], vec![]),
    ]);
    let r = compare_hierarchies(&d, &d).unwrap();
    assert_eq!(r.api_node_count, 1);
}

#[test]
fn missing_nodes_sorted_by_depth_then_name() {
    let api = doc(vec![node(
        "pkg:root@1",
        "root",
        "1",
        None,
        &[],
        vec![
            node("pkg:z@1", "z", "1", Some("package"), &[], vec![node("pkg:deep@1", "deep", "1", Some("package"), &[], vec![])]),
            node("pkg:b@1", "b", "1", Some("package"), &[], vec![]),
        ],
    )]);
    let tool = doc(vec![node("pkg:root@1", "root", "1", None, &[], vec![])]);
    let r = compare_hierarchies(&api, &tool).unwrap();
    let names: Vec<&str> = r.missing_in_tool.iter().map(|n| n.name.as_str()).collect();
    assert_eq!(names, vec!["b", "z", "deep"]);
}

#[test]
fn markdown_report_sections() {
    let r = compared();
    assert!(report_cuttable_exec(&r));
    let report = markdown_report(&r, "2025-01-01 00:00:00 UTC");
    assert!(report.starts_with(
        "# Comparison Report: API vs Tool Output\n\n**Generated:** 2025-01-01 00:00:00 UTC\n\n## Summary\n\n| Metric | Count |\n|--------|-------|\n| API total nodes | 3 |\n"
    ));
    assert!(report.contains("| Matched nodes | 2 |\n| Missing in tool | 1 |\n| Missing in API | 1 |\n| Field mismatches | 1 |\n| Structural mismatches | 1 |\n"));
    assert!(report.contains("\n## Nodes Missing in Tool\n\n### By Relationship Type\n\n| Relationship | Count |\n|-------------|-------|\n| package | 1 |\n"));
    assert!(report.contains("\n### By Depth Level\n\n| Depth | Count |\n|-------|-------|\n| 1 | 1 |\n"));
    assert!(report.contains("(e.g. unable to resolve external references): **0**\n\nNote: The `has_warnings`"));
    assert!(report.contains("| Node ID | Field | API Value | Tool Value |\n"));
    assert!(report.contains("| version | 1.0 | 2.0 |\n"));
    assert!(report.contains("### By Type\n\n| Type | Count |\n|------|-------|\n| children_differ | 1 |\n"));
    assert!(report.ends_with("\n## Verdict\n\n**4 total differences found.** Review the details above and the CSV files for full data.\n"));
    let b = digest('b');
    let x = format!("pkg:oci/x@sha256:{}", b);
    assert!(report.contains(&format!("| {} | x | 1 | package |\n", truncate(&x, 60))));
}

#[test]
fn rendered_report_is_stamped_in_utc() {
    let r = compared();
    let report = render_markdown_report(&r);
    let first = report.lines().nth(2).unwrap();
    assert!(first.starts_with("**Generated:** "));
    assert!(first.ends_with(" UTC"));
}

#[test]
fn csv_records_carry_links() {
    let r = compared();
    let b = digest('b');
    let y = format!("pkg:oci/y@sha256:{}", b);
    let x = format!("pkg:oci/x@sha256:{}", b);
    let tool_rows = missing_in_tool_records(&r.missing_in_tool, &r.node_id_mismatch_tool);
    assert_eq!(tool_rows.len(), 1);
    assert_eq!(tool_rows[0].api_node_id, x);
    assert_eq!(tool_rows[0].node_id_mismatch, "yes");
    assert_eq!(tool_rows[0].tool_node_id, y);
    assert_eq!(tool_rows[0].purl, x);
    assert_eq!(tool_rows[0].cpe, "cpe:/a:redhat:app:1");
    assert_eq!(tool_rows[0].relationship, "package");
    assert_eq!(tool_rows[0].depth_level, 1);
    assert_eq!(tool_rows[0].has_warnings, "no");
    assert_eq!(tool_rows[0].sbom_id, "");
    let api_rows = missing_in_api_records(&r.missing_in_api, &r.node_id_mismatch_api);
    assert_eq!(api_rows[0].tool_node_id, y);
    assert_eq!(api_rows[0].api_node_id, x);
    let none = missing_in_api_records(&r.missing_in_api, &vec![]);
    assert_eq!(none[0].node_id_mismatch, "no");
    assert_eq!(none[0].api_node_id, "");
}

#[test]
fn csv_record_counts_warnings() {
    let mut n = plain_node("id", "n");
    n.warnings = vec!["w1".to_string(), "w2".to_string()];
    let rows = missing_in_tool_records(&vec![n], &vec![]);
    assert_eq!(rows[0].has_warnings, "yes (2)");
    assert_eq!(rows[0].warnings, "w1; w2");
}

#[test]
fn summary_lists_counts() {
    let r = compared();
    let s = summary(&r);
    assert!(s.starts_with("\n═"));
    assert!(s.contains("  COMPARISON SUMMARY\n"));
    assert!(s.contains("API nodes:              3\n"));
    assert!(s.contains("Matched:                2\n"));
    assert!(s.contains("Missing in tool:        1 (see missing_in_tool.csv)\n"));
    assert!(s.contains("Field mismatches:       1 (see field_mismatches.csv)\n"));
    assert!(s.contains("Structural mismatches:  1\n"));
    assert!(s.ends_with("═\n\n"));
}

#[test]
fn compare_fields_ignores_list_order() {
    let mut a = plain_node("id", "one");
    let mut t = plain_node("id", "one");
    a.purl = vec!["pkg:x@1?arch=amd64".to_string(), "pkg:y@2".to_string()];
    t.purl = vec!["pkg:y@2".to_string(), "pkg:x@1".to_string()];
    a.cpe = vec!["c2".to_string(), "c1".to_string()];
    t.cpe = vec!["c1".to_string(), "c3".to_string()];
    let m = compare_fields(&a, &t);
    let mut a2 = plain_node("id", "one");
    a2.purl = vec!["pkg:y@2".to_string(), "pkg:x@1?arch=amd64".to_string()];
    a2.cpe = vec!["c1".to_string(), "c2".to_string()];
    let m2 = compare_fields(&a2, &t);
    assert_eq!(m.len(), 1);
    assert_eq!(m2.len(), 1);
    assert_eq!(m[0].field_name, m2[0].field_name);
    assert_eq!(m[0].api_value, "c1; c2");
    assert_eq!(m2[0].api_value, "c1; c2");
    assert_eq!(m[0].tool_value, m2[0].tool_value);
    assert!(compare_fields(&t, &t).is_empty());
}

#[test]
fn rendered_stamp_has_full_shape() {
    let r = compared();
    let report = render_markdown_report(&r);
    let line = report.lines().nth(2).unwrap();
    let stamp = line.strip_prefix("**Generated:** ").unwrap();
    assert!(stamp.len() >= 23);
    let tail = &stamp[stamp.len() - 19..];
    assert_eq!(&tail[0..1], "-");
    assert_eq!(&tail[6..7], " ");
    assert_eq!(&tail[9..10], ":");
    assert!(tail.ends_with(" UTC"));
}
