use conformulator::checker::ConformanceReport;
use conformulator::checker::ConformanceResult;
use conformulator::checker::RepositoryRef;
use conformulator::codec::parse_report;
use conformulator::codec::serialize_report;

fn result(org: &str, name: &str, conforms: bool, reason: Option<&str>) -> ConformanceResult {
    ConformanceResult {
        repository: RepositoryRef { organization: String::from(org), name: String::from(name) },
        conforms,
        reason: reason.map(String::from),
    }
}

#[test]
fn round_trip_empty_report() {
    let report = ConformanceReport { results: vec![], generated_at: 0 };
    let text = serialize_report(&report);
    assert_eq!(parse_report(&text), Some(report));
}

#[test]
fn round_trip_reproduces_every_field() {
    let report = ConformanceReport {
        results: vec![
            result("rust-lang", "rust", true, None),
            result("rust-lang", "cargo", false, Some("fetch error")),
            result("rust-lang-nursery", "rustup", false, Some("content mismatch")),
        ],
        generated_at: 1234567890,
    };
    let text = serialize_report(&report);
    assert_eq!(parse_report(&text), Some(report));
}

#[test]
fn round_trip_survives_hostile_content() {
    // Content that looks like the format itself: digits, colons, newlines,
    // flags, and multi-byte characters.
    let report = ConformanceReport {
        results: vec![
            result("12:34\n", "y-n-s", true, None),
            result("", "", false, Some("")),
            result("naïve — übergroß", "0:", false, Some("7\n2\n1:a1:by-")),
        ],
        generated_at: u64::MAX,
    };
    let text = serialize_report(&report);
    assert_eq!(parse_report(&text), Some(report));
}

#[test]
fn serialized_form_is_the_documented_format() {
    let report = ConformanceReport {
        results: vec![result("a", "b", true, None)],
        generated_at: 7,
    };
    assert_eq!(serialize_report(&report), "7\n1\n1:a1:by-");

    let with_reason = ConformanceReport {
        results: vec![result("org", "repo", false, Some("fetch error"))],
        generated_at: 310,
    };
    assert_eq!(serialize_report(&with_reason), "310\n1\n3:org4:repons11:fetch error");
}

#[test]
fn parse_rejects_garbage() {
    assert_eq!(parse_report(""), None);
    assert_eq!(parse_report("not a report"), None);
    assert_eq!(parse_report("7\n"), None);
    assert_eq!(parse_report("7\n1\n"), None);
    assert_eq!(parse_report("7\n1\n1:a1:bz-"), None);
    assert_eq!(parse_report("99999999999999999999999\n0\n"), None);
}

#[test]
fn parse_rejects_trailing_noise() {
    let report = ConformanceReport { results: vec![], generated_at: 3 };
    let mut text = serialize_report(&report);
    assert_eq!(parse_report(&text), Some(report));
    text.push(' ');
    assert_eq!(parse_report(&text), None);
}

#[test]
fn parse_counts_characters_not_bytes() {
    // A multi-byte character counts once: if the encoder or decoder measured
    // bytes instead of characters, this would not round-trip.
    let report = ConformanceReport {
        results: vec![result("é", "日本語", true, None)],
        generated_at: 1,
    };
    let text = serialize_report(&report);
    assert_eq!(text, "1\n1\n1:é3:日本語y-");
    assert_eq!(parse_report(&text), Some(report));
}
