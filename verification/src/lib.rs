//! Correlation of Software Bills of Materials: package-URL handling, the
//! reference graph between SBOMs, rank assignment, hierarchy extraction and
//! the comparison of two hierarchy documents.

pub mod text;
pub mod purl;
pub mod sbom;
pub mod graph;
pub mod correlation;
pub mod hierarchy;
pub mod json;
pub mod compare;
pub mod comparison;
pub mod report;
pub mod api;
pub mod listing;
