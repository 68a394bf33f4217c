use conformulator::comparator::CanonicalDocument;

fn doc() -> CanonicalDocument {
    CanonicalDocument::new(
        String::from("# Code of Conduct\n\nBe kind.\n"),
        String::from("See the canonical code of conduct.\n"),
    )
}

#[test]
fn exact_base_text_is_base_conformant() {
    let d = doc();
    assert!(d.is_base_conformant("# Code of Conduct\n\nBe kind.\n"));
}

#[test]
fn trailing_newline_difference_is_not_conformant() {
    let d = doc();
    assert!(!d.is_base_conformant("# Code of Conduct\n\nBe kind.\n\n"));
    assert!(!d.is_base_conformant("# Code of Conduct\n\nBe kind."));
    assert!(!d.is_conformant("# Code of Conduct\n\nBe kind.\n\n"));
}

#[test]
fn exact_satellite_text_is_satellite_conformant() {
    let d = doc();
    assert!(d.is_satellite_conformant("See the canonical code of conduct.\n"));
    assert!(!d.is_satellite_conformant("# Code of Conduct\n\nBe kind.\n"));
}

#[test]
fn either_canonical_form_conforms() {
    let d = doc();
    assert!(d.is_conformant("# Code of Conduct\n\nBe kind.\n"));
    assert!(d.is_conformant("See the canonical code of conduct.\n"));
    assert!(!d.is_conformant(""));
    assert!(!d.is_conformant("something else entirely"));
}
