use camp_ranger::purl::{extract_name_version_from_purl, extract_sha256_from_purl, purls_match_by_sha256};

#[test]
fn test_sha256_extraction() {
    let purl = "pkg:oci/name@sha256:abc123def456?arch=amd64";
    assert_eq!(
        extract_sha256_from_purl(purl),
        Some("abc123def456".to_string())
    );

    let purl_no_query = "pkg:oci/name@sha256:xyz789";
    assert_eq!(
        extract_sha256_from_purl(purl_no_query),
        Some("xyz789".to_string())
    );

    let purl_no_sha = "pkg:oci/name@v1.0.0";
    assert_eq!(extract_sha256_from_purl(purl_no_sha), None);
}

#[test]
fn test_purl_matching() {
    let purl1 = "pkg:oci/name@sha256:abc123?arch=amd64";
    let purl2 = "pkg:oci/other@sha256:abc123?os=linux";
    assert!(purls_match_by_sha256(purl1, purl2));

    let purl3 = "pkg:oci/name@sha256:different?arch=amd64";
    assert!(!purls_match_by_sha256(purl1, purl3));
}

#[test]
fn test_extract_name_version_golang() {
    let (name, version) = extract_name_version_from_purl(
        "pkg:golang/github.com/beorn7/perks@v1.0.1?package-id=d6fd5b144cc18be1",
    );
    assert_eq!(name, "github.com/beorn7/perks");
    assert_eq!(version, "v1.0.1");
}

#[test]
fn test_extract_name_version_rpm_with_epoch() {
    let (name, version) = extract_name_version_from_purl(
        "pkg:rpm/redhat/gdbm-libs@1.19-4.el9?arch=x86_64&epoch=1",
    );
    assert_eq!(name, "gdbm-libs");
    assert_eq!(version, "1:1.19-4.el9");
}

#[test]
fn test_extract_name_version_url_decode() {
    let (name, version) = extract_name_version_from_purl(
        "pkg:golang/github.com/evanphx/json-patch@v5.6.0%2Bincompatible?package-id=abc",
    );
    assert_eq!(name, "github.com/evanphx/json-patch");
    assert_eq!(version, "v5.6.0+incompatible");
}

#[test]
fn test_extract_name_version_with_subpath() {
    let (name, version) = extract_name_version_from_purl(
        "pkg:golang/github.com/google/renameio@v2.0.0#v2",
    );
    assert_eq!(name, "github.com/google/renameio/v2");
    assert_eq!(version, "v2.0.0");
}

#[test]
fn test_extract_name_version_simple_rpm() {
    let (name, version) = extract_name_version_from_purl(
        "pkg:rpm/redhat/zlib@1.2.11-40.el9?arch=aarch64",
    );
    assert_eq!(name, "zlib");
    assert_eq!(version, "1.2.11-40.el9");
}

#[test]
fn test_extract_name_version_golang_with_subpath() {
    let (name, version) = extract_name_version_from_purl(
        "pkg:golang/github.com/kubernetes-csi/external-snapshotter@v4.2.0#client/v4",
    );
    assert_eq!(name, "github.com/kubernetes-csi/external-snapshotter/client/v4");
    assert_eq!(version, "v4.2.0");
}

#[test]
fn epoch_after_other_qualifiers() {
    let (name, version) = extract_name_version_from_purl("pkg:rpm/redhat/zlib@1.2.11-40.el9?arch=aarch64&epoch=1");
    assert_eq!(name, "zlib");
    assert_eq!(version, "1:1.2.11-40.el9");
}

#[test]
fn sha256_from_encoded_marker() {
    assert_eq!(
        extract_sha256_from_purl("pkg:oci/name@sha256%3Aabc123?arch=amd64"),
        Some("abc123".to_string())
    );
    assert_eq!(
        extract_sha256_from_purl("pkg:oci/name@sha256%3Aenc?x=1@sha256:plain"),
        Some("enc".to_string())
    );
}

#[test]
fn name_without_version() {
    let (name, version) = extract_name_version_from_purl("pkg:rpm/redhat/zlib?arch=x86_64");
    assert_eq!(name, "zlib");
    assert_eq!(version, "");
}
