use camp_ranger::api::{
    analysis_by_cpe_url, analysis_by_purl_url, auth_header, latest_analysis_by_cpe_url,
    latest_analysis_by_purl_url, replace_char_exec, sbom_download_url, sbom_file_name, sbom_list_url,
    TpaConfig,
};
use camp_ranger::sbom::{TpaSbom, TpaSbomMetadata, TpaSbomMetadataComponent};

const BASE: &str = "https://tpa.example.com";

fn config(issuer: Option<&str>, id: Option<&str>, secret: Option<&str>) -> TpaConfig {
    TpaConfig {
        tpa_api_url: BASE.to_string(),
        issuer_url: issuer.map(|s| s.to_string()),
        tpa_api_client_id: id.map(|s| s.to_string()),
        tpa_api_client_secret: secret.map(|s| s.to_string()),
        accept_invalid_certs: false,
        sbom_output_dir: "sboms".to_string(),
    }
}

fn named_sbom(name: Option<&str>, serial: &str) -> TpaSbom {
    TpaSbom {
        serial_number: serial.to_string(),
        metadata: TpaSbomMetadata {
            component: Some(TpaSbomMetadataComponent {
                name: name.map(|n| n.to_string()),
                version: None,
                purl: None,
                evidence: None,
            }),
            timestamp: None,
        },
        components: vec![],
        dependencies: vec![],
    }
}

#[test]
fn sbom_list_address() {
    assert_eq!(sbom_list_url(BASE), "https://tpa.example.com/api/v2/sbom?limit=0");
}

#[test]
fn download_address_encodes_id() {
    assert_eq!(
        sbom_download_url(BASE, "urn:uuid:1234/5"),
        "https://tpa.example.com/api/v2/sbom/urn%3Auuid%3A1234%2F5/download"
    );
    assert_eq!(sbom_download_url(BASE, "a-b_c.d~e"), "https://tpa.example.com/api/v2/sbom/a-b_c.d~e/download");
}

#[test]
fn analysis_addresses() {
    assert_eq!(
        analysis_by_cpe_url(BASE, "cpe:/a:redhat"),
        "https://tpa.example.com/api/v2/analysis/component/cpe%3A%2Fa%3Aredhat?descendants=10&limit=0"
    );
    assert_eq!(
        analysis_by_purl_url(BASE, "pkg:oci/x@sha256:ab?arch=amd64"),
        "https://tpa.example.com/api/v2/analysis/component/pkg%3Aoci%2Fx%40sha256%3Aab%3Farch%3Damd64?ancestors=10&limit=0"
    );
    assert_eq!(
        latest_analysis_by_cpe_url(BASE, "cpe 1"),
        "https://tpa.example.com/api/v2/analysis/latest/component/cpe%201?descendants=10&limit=0"
    );
    assert_eq!(
        latest_analysis_by_purl_url(BASE, "é"),
        "https://tpa.example.com/api/v2/analysis/latest/component/%C3%A9?ancestors=10&limit=0"
    );
}

#[test]
fn bearer_header() {
    assert_eq!(auth_header(&Some("tok".to_string())), Some("Bearer tok".to_string()));
    assert_eq!(auth_header(&None), None);
}

#[test]
fn credentials_need_all_three() {
    let c = config(Some("https://sso"), Some("id"), Some("secret"));
    let (i, id, s) = c.credentials().unwrap();
    assert_eq!((i.as_str(), id.as_str(), s.as_str()), ("https://sso", "id", "secret"));
    assert!(config(Some("https://sso"), None, Some("secret")).credentials().is_none());
    assert!(config(None, None, None).credentials().is_none());
}

#[test]
fn sbom_file_names() {
    let s = named_sbom(Some("ubi9/python"), "urn:uuid:ab/cd");
    assert_eq!(sbom_file_name(&s, "sboms"), "sboms/ubi9_python_urn_uuid_ab_cd.json");
    let unnamed = named_sbom(None, "x");
    assert_eq!(sbom_file_name(&unnamed, "out"), "out/unknown_x.json");
}

#[test]
fn replace_char_replaces_each() {
    assert_eq!(replace_char_exec("a/b/c", '/', '_'), "a_b_c");
    assert_eq!(replace_char_exec("", '/', '_'), "");
}

