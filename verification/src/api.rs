//! What the library knows of the service: its configuration, the shape of
//! its answers, the addresses of its endpoints, the authorization header
//! and the name under which a fetched SBOM is stored.

use vstd::prelude::*;
use crate::sbom::TpaSbom;
use crate::text::push_char;

verus! {

/// Where the service is and how to authenticate with it.
#[derive(Debug)]
pub struct TpaConfig {
    pub tpa_api_url: String,
    pub issuer_url: Option<String>,
    pub tpa_api_client_id: Option<String>,
    pub tpa_api_client_secret: Option<String>,
    pub accept_invalid_certs: bool,
    pub sbom_output_dir: String,
}

/// The token that the identity provider hands out.
#[derive(Debug)]
pub struct APIToken {
    pub access_token: String,
    pub token_type: String,
    pub expires_in: i32,
}

/// The answer of an analysis request.
#[derive(Debug)]
pub struct AnalysisResponse {
    pub items: Vec<AnalysisNode>,
    pub total: u64,
}

/// A node of an analysis answer, with the nodes below or above it.
#[derive(Debug)]
pub struct AnalysisNode {
    pub sbom_id: Option<String>,
    pub node_id: String,
    pub purl: Vec<String>,
    pub cpe: Vec<String>,
    pub name: String,
    pub version: String,
    pub published: String,
    pub document_id: Option<String>,
    pub product_name: Option<String>,
    pub product_version: Option<String>,
    pub relationship: Option<String>,
    pub descendants: Vec<AnalysisNode>,
    pub ancestors: Vec<AnalysisNode>,
    pub warnings: Vec<String>,
}

/// A byte that percent-encoding keeps: an ASCII letter or digit, `-`,
/// `.`, `_` or `~`.
pub open spec fn url_safe(b: u8) -> bool {
    (48 <= b <= 57) || (65 <= b <= 90) || (97 <= b <= 122) || b == 45 || b == 46 || b == 95 || b == 126
}

/// The upper-case hex digit for `d < 16`.
pub open spec fn hex_upper(d: u8) -> char {
    if d < 10 {
        (48 + d) as char
    } else {
        (55 + d) as char
    }
}

/// One byte percent-encoded: kept when safe, else `%` and two hex digits.
pub open spec fn encoded_byte(b: u8) -> Seq<char> {
    if url_safe(b) {
        seq![b as char]
    } else {
        seq!['%', hex_upper(b / 16), hex_upper(b % 16)]
    }
}

/// Bytes percent-encoded one after another.
pub open spec fn url_encoded_bytes(bs: Seq<u8>) -> Seq<char>
    decreases bs.len(),
{
    if bs.len() == 0 {
        Seq::empty()
    } else {
        url_encoded_bytes(bs.drop_last()) + encoded_byte(bs.last())
    }
}

/// A text percent-encoded, byte by byte of its UTF-8 form.
pub open spec fn url_encoded(s: Seq<char>) -> Seq<char> {
    url_encoded_bytes(vstd::utf8::encode_utf8(s))
}

/// `urlencoding::encode`: every byte of the UTF-8 form of `s` is kept if
/// it is an ASCII letter or digit, `-`, `.`, `_` or `~`, and is written
/// as `%` and two upper-case hex digits otherwise.
#[verifier::external_body]
fn url_encode(s: &str) -> (r: String)
    ensures
        r@ == url_encoded(s@),
{
    urlencoding::encode(s).into_owned()
}

/// The address of the list of all SBOMs.
pub open spec fn sbom_list_address(base: Seq<char>) -> Seq<char> {
    base + "/api/v2/sbom?limit=0"@
}

/// The address from which one SBOM is downloaded.
pub open spec fn sbom_download_address(base: Seq<char>, id: Seq<char>) -> Seq<char> {
    base + "/api/v2/sbom/"@ + url_encoded(id) + "/download"@
}

/// The address of an analysis of a component: the latest one or any,
/// with ten levels of ancestors (for a package URL) or of descendants
/// (for a CPE).
pub open spec fn analysis_address(base: Seq<char>, latest: bool, key: Seq<char>, ancestors: bool) -> Seq<char> {
    base + (if latest {
        "/api/v2/analysis/latest/component/"@
    } else {
        "/api/v2/analysis/component/"@
    }) + url_encoded(key) + (if ancestors {
        "?ancestors=10&limit=0"@
    } else {
        "?descendants=10&limit=0"@
    })
}

/// The address of the list of all SBOMs.
pub fn sbom_list_url(base: &str) -> (r: String)
    ensures
        r@ == sbom_list_address(base@),
{
    let mut r = base.to_owned();
    r.append("/api/v2/sbom?limit=0");
    r
}

/// The address from which the SBOM `sbom_id` is downloaded; the id is
/// percent-encoded.
pub fn sbom_download_url(base: &str, sbom_id: &str) -> (r: String)
    ensures
        r@ == sbom_download_address(base@, sbom_id@),
{
    let mut r = base.to_owned();
    r.append("/api/v2/sbom/");
    let id = url_encode(sbom_id);
    r.append(id.as_str());
    r.append("/download");
    r
}

fn analysis_url(base: &str, latest: bool, key: &str, ancestors: bool) -> (r: String)
    ensures
        r@ == analysis_address(base@, latest, key@, ancestors),
{
    let mut r = base.to_owned();
    if latest {
        r.append("/api/v2/analysis/latest/component/");
    } else {
        r.append("/api/v2/analysis/component/");
    }
    let k = url_encode(key);
    r.append(k.as_str());
    if ancestors {
        r.append("?ancestors=10&limit=0");
    } else {
        r.append("?descendants=10&limit=0");
    }
    r
}

/// The address of the analysis of a CPE, with its descendants.
pub fn analysis_by_cpe_url(base: &str, cpe: &str) -> (r: String)
    ensures
        r@ == analysis_address(base@, false, cpe@, false),
{
    analysis_url(base, false, cpe, false)
}

/// The address of the analysis of a package URL, with its ancestors.
pub fn analysis_by_purl_url(base: &str, purl: &str) -> (r: String)
    ensures
        r@ == analysis_address(base@, false, purl@, true),
{
    analysis_url(base, false, purl, true)
}

/// The address of the latest analysis of a CPE, with its descendants.
pub fn latest_analysis_by_cpe_url(base: &str, cpe: &str) -> (r: String)
    ensures
        r@ == analysis_address(base@, true, cpe@, false),
{
    analysis_url(base, true, cpe, false)
}

/// The address of the latest analysis of a package URL, with its
/// ancestors.
pub fn latest_analysis_by_purl_url(base: &str, purl: &str) -> (r: String)
    ensures
        r@ == analysis_address(base@, true, purl@, true),
{
    analysis_url(base, true, purl, true)
}

/// The value of the authorization header for a token, if there is one:
/// `Bearer ` and the token.
pub fn auth_header(token: &Option<String>) -> (r: Option<String>)
    ensures
        match token {
            Some(t) => r is Some && r->0@ == "Bearer "@ + t@,
            None => r is None,
        },
{
    match token {
        Some(t) => {
            let mut v = "Bearer ".to_owned();
            v.append(t.as_str());
            Some(v)
        },
        None => None,
    }
}

/// The issuer, client id and client secret, when all three are given.
pub open spec fn credentials_of(c: TpaConfig) -> Option<(Seq<char>, Seq<char>, Seq<char>)> {
    match (c.issuer_url, c.tpa_api_client_id, c.tpa_api_client_secret) {
        (Some(i), Some(id), Some(secret)) => Some((i@, id@, secret@)),
        _ => None,
    }
}

impl TpaConfig {
    /// The issuer, client id and client secret to authenticate with, when
    /// all three are given; without them the service is used without
    /// authentication.
    pub fn credentials(&self) -> (r: Option<(&String, &String, &String)>)
        ensures
            match r {
                Some((i, id, secret)) => credentials_of(*self) == Some((i@, id@, secret@)),
                None => credentials_of(*self) is None,
            },
    {
        match (&self.issuer_url, &self.tpa_api_client_id, &self.tpa_api_client_secret) {
            (Some(i), Some(id), Some(secret)) => Some((i, id, secret)),
            _ => None,
        }
    }
}

/// `s` with each `from` replaced by `to`.
pub open spec fn replace_char(s: Seq<char>, from: char, to: char) -> Seq<char> {
    s.map_values(|c: char| if c == from { to } else { c })
}

/// `s` with each `from` replaced by `to`.
pub fn replace_char_exec(s: &str, from: char, to: char) -> (r: String)
    ensures
        r@ == replace_char(s@, from, to),
{
    let cs = crate::text::chars_of(s);
    let mut r = String::new();
    let mut i: usize = 0;
    while i < cs.len()
        invariant
            i <= cs@.len(),
            cs@ == s@,
            r@ == replace_char(s@.take(i as int), from, to),
        decreases cs.len() - i,
    {
        let c = cs[i];
        push_char(&mut r, if c == from { to } else { c });
        assert(replace_char(s@.take(i + 1), from, to) =~= replace_char(s@.take(i as int), from, to).push(
            if c == from { to } else { c },
        ));
        i += 1;
    }
    assert(s@.take(s@.len() as int) =~= s@);
    r
}

/// The name of the described component, `unknown` when there is none.
pub open spec fn described_name(s: TpaSbom) -> Seq<char> {
    match s.metadata.component {
        Some(c) => match c.name {
            Some(n) => n@,
            None => "unknown"@,
        },
        None => "unknown"@,
    }
}

/// The path under which an SBOM is stored in `dir`: the described
/// component's name with `/` made `_`, `_`, the serial number with `:`
/// and `/` made `_`, and `.json`.
pub open spec fn sbom_file_path(dir: Seq<char>, s: TpaSbom) -> Seq<char> {
    dir + "/"@ + replace_char(described_name(s), '/', '_') + "_"@ + replace_char(
        replace_char(s.serial_number@, ':', '_'),
        '/',
        '_',
    ) + ".json"@
}

/// The path under which `sbom` is stored in `output_dir`.
pub fn sbom_file_name(sbom: &TpaSbom, output_dir: &str) -> (r: String)
    ensures
        r@ == sbom_file_path(output_dir@, *sbom),
{
    let name = match &sbom.metadata.component {
        Some(c) => match &c.name {
            Some(n) => n.clone(),
            None => "unknown".to_owned(),
        },
        None => "unknown".to_owned(),
    };
    let mut r = output_dir.to_owned();
    r.append("/");
    let n = replace_char_exec(name.as_str(), '/', '_');
    r.append(n.as_str());
    r.append("_");
    let s1 = replace_char_exec(sbom.serial_number.as_str(), ':', '_');
    let s2 = replace_char_exec(s1.as_str(), '/', '_');
    r.append(s2.as_str());
    r.append(".json");
    r
}

} // verus!
