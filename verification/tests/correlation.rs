use camp_ranger::correlation::SbomCorrelation;
use camp_ranger::listing::{display_name, nodes_at_rank, rank_range};
use camp_ranger::purl::purls_match_by_sha256;
use camp_ranger::hierarchy::{build_dependency_map, HierarchyNode};
use camp_ranger::sbom::{
    TpaSbom, TpaSbomComponents, TpaSbomComponentsPedigree, TpaSbomComponentsPedigreeVariant,
    TpaSbomDependency, TpaSbomMetadata, TpaSbomMetadataComponent, TpaSbomMetadataComponentEvidence,
    TpaSbomMetadataComponentEvidenceIdentity,
};

const CPE: &str = "cpe:/a:redhat:product:1";

fn comp(name: &str, purl: &str, version: Option<&str>) -> TpaSbomComponents {
    TpaSbomComponents {
        name: Some(name.to_string()),
        purl: Some(purl.to_string()),
        version: version.map(|v| v.to_string()),
        pedigree: None,
    }
}

fn sbom(
    serial: &str,
    name: &str,
    purl: &str,
    cpes: &[&str],
    timestamp: Option<&str>,
    components: Vec<TpaSbomComponents>,
    dependencies: Vec<TpaSbomDependency>,
) -> TpaSbom {
    TpaSbom {
        serial_number: serial.to_string(),
        metadata: TpaSbomMetadata {
            component: Some(TpaSbomMetadataComponent {
                name: Some(name.to_string()),
                version: None,
                purl: Some(purl.to_string()),
                evidence: Some(TpaSbomMetadataComponentEvidence {
                    identity: Some(
                        cpes.iter()
                            .map(|c| TpaSbomMetadataComponentEvidenceIdentity { concluded_value: Some(c.to_string()) })
                            .collect(),
                    ),
                }),
            }),
            timestamp: timestamp.map(|t| t.to_string()),
        },
        components,
        dependencies,
    }
}

const A_PURL: &str = "pkg:oci/prod@sha256:aaaa?arch=amd64";
const B_PURL: &str = "pkg:oci/b@sha256:bbbb?arch=amd64";
const C_PURL: &str = "pkg:oci/c@sha256:cccc";

fn sboms() -> Vec<TpaSbom> {
    vec![
        sbom(
            "urn:a",
            "product",
            A_PURL,
            &[CPE],
            Some("2024-01-01T00:00:00Z"),
            vec![comp("prod", "pkg:oci/prod@sha256:aaaa", Some("1.0")), comp("b-image", "pkg:oci/b@sha256:bbbb", Some("2"))],
            vec![TpaSbomDependency {
                ref_purl: "pkg:oci/b@sha256:bbbb".to_string(),
                depends_on: vec!["pkg:rpm/redhat/zlib@1.2.11-40.el9?arch=aarch64".to_string()],
            }],
        ),
        sbom("urn:b", "b", B_PURL, &[], None, vec![comp("c-image", "pkg:oci/c@sha256:cccc?os=linux", None)], vec![]),
        sbom("urn:c", "c", C_PURL, &[], None, vec![], vec![]),
        sbom("urn:d", "d", "pkg:oci/d@sha256:dddd", &[], None, vec![], vec![]),
    ]
}

fn serials(h: &[&camp_ranger::correlation::SbomWithRank]) -> Vec<String> {
    h.iter().map(|n| n.sbom.serial_number.clone()).collect()
}

#[test]
fn ranks_follow_references() {
    let corr = SbomCorrelation::build_from_dir(sboms());
    assert_eq!(corr.nodes.len(), 4);
    let ranks: Vec<usize> = corr.nodes.iter().map(|n| n.rank).collect();
    assert_eq!(ranks, vec![1, 2, 3, 1]);
    assert_eq!(corr.max_rank(), 3);
    assert_eq!(serials(&corr.get_by_rank(1)), vec!["urn:a", "urn:d"]);
    assert_eq!(serials(&corr.get_by_rank(3)), vec!["urn:c"]);
    assert!(corr.get_by_rank(4).is_empty());
}

#[test]
fn references_mirror_referenced_by() {
    let corr = SbomCorrelation::build_from_dir(sboms());
    assert_eq!(corr.nodes[0].references, vec!["urn:b".to_string()]);
    assert_eq!(corr.nodes[1].referenced_by, vec!["urn:a".to_string()]);
    assert_eq!(corr.nodes[1].references, vec!["urn:c".to_string()]);
    assert_eq!(corr.nodes[2].referenced_by, vec!["urn:b".to_string()]);
    assert!(corr.nodes[3].references.is_empty());
    assert!(corr.nodes[3].referenced_by.is_empty());
}

#[test]
fn later_sbom_with_same_serial_replaces_earlier() {
    let mut list = sboms();
    list.push(sbom("urn:d", "d2", "pkg:oci/d@sha256:dddd", &[], None, vec![], vec![]));
    let corr = SbomCorrelation::build_from_dir(list);
    assert_eq!(corr.nodes.len(), 4);
    let last = corr.nodes.iter().find(|n| n.sbom.serial_number == "urn:d").unwrap();
    assert_eq!(last.sbom.metadata.component.as_ref().unwrap().name.as_deref(), Some("d2"));
}

#[test]
fn empty_correlation_has_rank_zero() {
    let corr = SbomCorrelation::build_from_dir(vec![]);
    assert_eq!(corr.max_rank(), 0);
    assert!(corr.get_sbom_hierarchy_by_cpe(CPE).is_empty());
}

#[test]
fn nodes_by_cpe_and_purl() {
    let corr = SbomCorrelation::build_from_dir(sboms());
    assert_eq!(serials(&corr.get_sbom_node_by_cpe(CPE)), vec!["urn:a"]);
    assert!(corr.get_sbom_node_by_cpe("cpe:/a:other").is_empty());
    assert_eq!(serials(&corr.get_sbom_node_by_purl("pkg:oci/c@sha256:cccc")), vec!["urn:b", "urn:c"]);
    assert_eq!(serials(&corr.get_sbom_node_by_purl("pkg:oci/d@sha256:dddd")), vec!["urn:d"]);
}

#[test]
fn hierarchy_by_cpe_walks_down() {
    let corr = SbomCorrelation::build_from_dir(sboms());
    let hs = corr.get_sbom_hierarchy_by_cpe(CPE);
    assert_eq!(hs.len(), 1);
    assert_eq!(serials(&hs[0]), vec!["urn:a", "urn:b", "urn:c"]);
    let by_purl = corr.get_sbom_hierarchy_by_purl(B_PURL);
    assert_eq!(by_purl.len(), 2);
    assert_eq!(serials(&by_purl[0]), vec!["urn:a", "urn:b", "urn:c"]);
    assert_eq!(serials(&by_purl[1]), vec!["urn:b", "urn:c"]);
}

#[test]
fn ancestors_by_purl_walk_up() {
    let corr = SbomCorrelation::build_from_dir(sboms());
    let hs = corr.get_sbom_ancestors_by_purl(C_PURL);
    assert_eq!(hs.len(), 2);
    assert_eq!(serials(&hs[0]), vec!["urn:b", "urn:a"]);
    assert_eq!(serials(&hs[1]), vec!["urn:c", "urn:b", "urn:a"]);
    assert!(corr.get_sbom_ancestors_by_purl("pkg:oci/none@sha256:ffff").is_empty());
}

#[test]
fn filter_latest_keeps_newest_per_root_name() {
    let mut list = sboms();
    list.push(sbom("urn:e", "product", "pkg:oci/prod@sha256:eeee", &[CPE], Some("2025-01-01T00:00:00Z"), vec![], vec![]));
    let corr = SbomCorrelation::build_from_dir(list);
    let hs = corr.get_sbom_hierarchy_by_cpe(CPE);
    assert_eq!(hs.len(), 2);
    let latest = corr.filter_latest_hierarchy(hs);
    assert_eq!(latest.len(), 1);
    assert_eq!(serials(&latest[0]), vec!["urn:e"]);
}

#[test]
fn filter_latest_keeps_a_single_hierarchy() {
    let corr = SbomCorrelation::build_from_dir(sboms());
    let hs = corr.get_sbom_hierarchy_by_cpe(CPE);
    let latest = corr.filter_latest_hierarchy(hs);
    assert_eq!(latest.len(), 1);
    assert_eq!(serials(&latest[0]), vec!["urn:a", "urn:b", "urn:c"]);
}

#[test]
fn hierarchies_to_json_nests_children_under_components() {
    let corr = SbomCorrelation::build_from_dir(sboms());
    let hs = corr.get_sbom_hierarchy_by_cpe(CPE);
    let out = corr.hierarchies_to_json(&hs);
    assert_eq!(out.items.len(), 1);
    let root = &out.items[0];
    assert_eq!(root.node_id, "product");
    assert_eq!(root.name, "product");
    assert_eq!(root.version, "1.0");
    assert_eq!(root.cpe, vec![CPE.to_string()]);
    assert_eq!(root.purl, vec![A_PURL.to_string()]);
    assert_eq!(root.published.as_deref(), Some("2024-01-01T00:00:00Z"));
    assert_eq!(root.relationship, None);
    assert_eq!(root.descendants.len(), 1);
    let b_comp = &root.descendants[0];
    assert_eq!(b_comp.node_id, "pkg:oci/b@sha256:bbbb");
    assert_eq!(b_comp.relationship.as_deref(), Some("generates"));
    assert_eq!(b_comp.descendants.len(), 2);
    let b = &b_comp.descendants[0];
    assert_eq!(b.name, "b");
    assert_eq!(b.relationship.as_deref(), Some("package"));
    assert_eq!(b.descendants[0].descendants[0].name, "c");
    let dep = &b_comp.descendants[1];
    assert_eq!(dep.relationship.as_deref(), Some("dependency"));
    assert_eq!(dep.name, "zlib");
    assert_eq!(dep.version, "1.2.11-40.el9");
}

#[test]
fn variants_become_component_nodes() {
    let mut list = sboms();
    list[1].components.push(TpaSbomComponents {
        name: Some("multi".to_string()),
        purl: None,
        version: Some("3".to_string()),
        pedigree: Some(TpaSbomComponentsPedigree {
            variants: Some(vec![TpaSbomComponentsPedigreeVariant {
                purl: Some("pkg:oci/v@sha256:9999?arch=s390x".to_string()),
                version: "3".to_string(),
            }]),
        }),
    });
    let corr = SbomCorrelation::build_from_dir(list);
    let hs = corr.get_sbom_hierarchy_by_purl(B_PURL);
    let out = corr.hierarchies_to_json(&hs[1..]);
    let b = &out.items[0];
    assert_eq!(b.descendants.len(), 2);
    assert_eq!(b.descendants[1].node_id, "pkg:oci/v@sha256:9999?arch=s390x");
    assert_eq!(b.descendants[1].purl, vec!["pkg:oci/v@sha256:9999?arch=s390x".to_string()]);
    assert_eq!(b.descendants[1].version, "3");
}

#[test]
fn node_constructors() {
    let list = sboms();
    let n = HierarchyNode::from_sbom(&list[1], "b-node".to_string());
    assert_eq!(n.node_id, "b-node");
    assert_eq!(n.name, "b");
    assert_eq!(n.version, "Unknown");
    assert!(n.cpe.is_empty());
    let c = HierarchyNode::from_component(&list[0].components[1], &list[0], "id".to_string());
    assert_eq!(c.name, "b-image");
    assert_eq!(c.version, "2");
    assert_eq!(c.relationship.as_deref(), Some("generates"));
    assert_eq!(c.published.as_deref(), Some("2024-01-01T00:00:00Z"));
    let d = HierarchyNode::from_dependency_purl("pkg:rpm/redhat/gdbm-libs@1.19-4.el9?arch=x86_64&epoch=1".to_string(), None);
    assert_eq!(d.node_id, "pkg:rpm/redhat/gdbm-libs@1.19-4.el9?arch=x86_64&epoch=1");
    assert_eq!(d.name, "gdbm-libs");
    assert_eq!(d.version, "1:1.19-4.el9");
    assert_eq!(d.relationship.as_deref(), Some("dependency"));
}

#[test]
fn dependency_map_keeps_last_entry_per_ref() {
    let mut s = sbom("urn:x", "x", "pkg:oci/x@sha256:1234", &[], None, vec![], vec![]);
    s.dependencies = vec![
        TpaSbomDependency { ref_purl: "r".to_string(), depends_on: vec!["a".to_string()] },
        TpaSbomDependency { ref_purl: "q".to_string(), depends_on: vec![] },
        TpaSbomDependency { ref_purl: "r".to_string(), depends_on: vec!["b".to_string()] },
    ];
    let m = build_dependency_map(&s);
    assert_eq!(m.len(), 2);
    let r = m.iter().find(|(k, _)| k == "r").unwrap();
    assert_eq!(r.1, vec!["b".to_string()]);
}

#[test]
fn listing_groups_by_rank() {
    let corr = SbomCorrelation::build_from_dir(sboms());
    let hs = corr.get_sbom_ancestors_by_purl(C_PURL);
    assert_eq!(rank_range(&hs[1]), (1, 3));
    assert_eq!(serials(&nodes_at_rank(&hs[1], 2)), vec!["urn:b"]);
    assert!(nodes_at_rank(&hs[1], 4).is_empty());
    assert_eq!(rank_range(&[]), (0, 0));
    assert_eq!(display_name(&corr.nodes[0].sbom), "product");
    let mut anonymous = sboms().remove(3);
    anonymous.metadata.component = None;
    assert_eq!(display_name(&anonymous), "Unknown");
}

#[test]
fn digest_matching_is_symmetric() {
    let a = "pkg:oci/a@sha256:1234?arch=amd64";
    let b = "pkg:oci/b@sha256%3A1234";
    assert!(purls_match_by_sha256(a, b));
    assert!(purls_match_by_sha256(b, a));
    assert!(purls_match_by_sha256(a, a));
    assert!(!purls_match_by_sha256("pkg:rpm/x@1", "pkg:rpm/x@1"));
}

#[test]
fn filter_latest_twice_keeps_everything() {
    let mut list = sboms();
    list.push(sbom("urn:e", "product", "pkg:oci/prod@sha256:eeee", &[CPE], Some("2025-01-01T00:00:00Z"), vec![], vec![]));
    list.push(sbom("urn:f", "other", "pkg:oci/o@sha256:ffff", &[CPE], None, vec![], vec![]));
    let corr = SbomCorrelation::build_from_dir(list);
    let hs = corr.get_sbom_hierarchy_by_cpe(CPE);
    assert_eq!(hs.len(), 3);
    let once = corr.filter_latest_hierarchy(hs);
    let once_serials: Vec<Vec<String>> = once.iter().map(|h| serials(h)).collect();
    assert_eq!(once_serials, vec![vec!["urn:e".to_string()], vec!["urn:f".to_string()]]);
    let twice = corr.filter_latest_hierarchy(once);
    let twice_serials: Vec<Vec<String>> = twice.iter().map(|h| serials(h)).collect();
    assert_eq!(twice_serials, once_serials);
}

fn count_packages(n: &HierarchyNode, name: &str) -> usize {
    let own = if n.relationship.as_deref() == Some("package") && n.name == name { 1 } else { 0 };
    own + n.descendants.iter().map(|d| count_packages(d, name)).sum::<usize>()
}

#[test]
fn each_sbom_is_expanded_once() {
    let mut list = sboms();
    list[0].components.push(comp("b-again", "pkg:oci/b@sha256:bbbb", Some("2")));
    let corr = SbomCorrelation::build_from_dir(list);
    let hs = corr.get_sbom_hierarchy_by_cpe(CPE);
    let out = corr.hierarchies_to_json(&hs);
    assert_eq!(out.items.len(), 1);
    let root = &out.items[0];
    assert_eq!(root.descendants.len(), 2);
    assert_eq!(root.descendants[1].node_id, "pkg:oci/b@sha256:bbbb");
    assert!(root.descendants[1].descendants.iter().all(|d| d.relationship.as_deref() != Some("package")));
    assert_eq!(count_packages(root, "b"), 1);
    assert_eq!(count_packages(root, "c"), 1);
}
