//! The CycloneDX documents, as the library reads them.

use vstd::prelude::*;

verus! {

/// One SBOM document.
#[derive(Debug)]
pub struct TpaSbom {
    /// The document's serial number, which identifies it.
    pub serial_number: String,
    /// What the document describes.
    pub metadata: TpaSbomMetadata,
    /// The components it lists.
    pub components: Vec<TpaSbomComponents>,
    /// The dependency relations between its components.
    pub dependencies: Vec<TpaSbomDependency>,
}

/// The metadata of an SBOM.
#[derive(Debug)]
pub struct TpaSbomMetadata {
    /// The component that the SBOM describes.
    pub component: Option<TpaSbomMetadataComponent>,
    /// When the SBOM was made.
    pub timestamp: Option<String>,
}

/// The component that an SBOM describes.
#[derive(Debug)]
pub struct TpaSbomMetadataComponent {
    pub name: Option<String>,
    pub version: Option<String>,
    pub purl: Option<String>,
    pub evidence: Option<TpaSbomMetadataComponentEvidence>,
}

/// Evidence of the identity of a described component.
#[derive(Debug)]
pub struct TpaSbomMetadataComponentEvidence {
    pub identity: Option<Vec<TpaSbomMetadataComponentEvidenceIdentity>>,
}

/// One identity of a described component; its concluded value is a CPE.
#[derive(Debug)]
pub struct TpaSbomMetadataComponentEvidenceIdentity {
    pub concluded_value: Option<String>,
}

/// A component that an SBOM lists.
#[derive(Debug)]
pub struct TpaSbomComponents {
    pub name: Option<String>,
    pub purl: Option<String>,
    pub version: Option<String>,
    pub pedigree: Option<TpaSbomComponentsPedigree>,
}

/// The pedigree of a component.
#[derive(Debug)]
pub struct TpaSbomComponentsPedigree {
    pub variants: Option<Vec<TpaSbomComponentsPedigreeVariant>>,
}

/// A variant of a component, such as the image of one architecture.
#[derive(Debug)]
pub struct TpaSbomComponentsPedigreeVariant {
    pub purl: Option<String>,
    pub version: String,
}

/// The components that one component depends on.
#[derive(Debug)]
pub struct TpaSbomDependency {
    /// The package URL of the depending component.
    pub ref_purl: String,
    /// The package URLs of what it depends on.
    pub depends_on: Vec<String>,
}

} // verus!
