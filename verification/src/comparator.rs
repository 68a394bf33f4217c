//! Compares fetched conduct-document text against the canonical reference
//! documents. Comparison is strict, character for character: no trimming and
//! no line-ending normalization, so a single trailing-newline difference is a
//! mismatch.

use vstd::prelude::*;

verus! {

/// The immutable reference texts: the full base document and the shorter
/// satellite template that merely points back to the base. Created once and
/// never mutated.
pub struct CanonicalDocument {
    pub base: String,
    pub satellite: String,
}

/// The mathematical content of the canonical documents.
pub struct DocumentModel {
    pub base: Seq<char>,
    pub satellite: Seq<char>,
}

impl View for CanonicalDocument {
    type V = DocumentModel;

    open spec fn view(&self) -> DocumentModel {
        DocumentModel { base: self.base@, satellite: self.satellite@ }
    }
}

/// A text conforms when it equals either canonical form exactly.
pub open spec fn spec_conformant(doc: DocumentModel, text: Seq<char>) -> bool {
    text == doc.base || text == doc.satellite
}

impl CanonicalDocument {
    pub fn new(base: String, satellite: String) -> (doc: CanonicalDocument)
        ensures
            doc@ == (DocumentModel { base: base@, satellite: satellite@ }),
    {
        CanonicalDocument { base, satellite }
    }

    /// True exactly when the candidate equals the base document character for
    /// character.
    pub fn is_base_conformant(&self, candidate: &str) -> (r: bool)
        ensures
            r == (candidate@ == self@.base),
    {
        candidate.to_owned() == self.base
    }

    /// True exactly when the candidate equals the satellite template
    /// character for character.
    pub fn is_satellite_conformant(&self, candidate: &str) -> (r: bool)
        ensures
            r == (candidate@ == self@.satellite),
    {
        candidate.to_owned() == self.satellite
    }

    /// True exactly when the candidate matches either canonical form.
    pub fn is_conformant(&self, candidate: &str) -> (r: bool)
        ensures
            r == spec_conformant(self@, candidate@),
    {
        self.is_base_conformant(candidate) || self.is_satellite_conformant(candidate)
    }
}

} // verus!
