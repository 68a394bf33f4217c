use conformulator::cache::Cacheit;
use conformulator::checker::ConformanceReport;
use conformulator::checker::ConformanceResult;
use conformulator::checker::RepositoryRef;
use conformulator::healthcheck;
use conformulator::report::cached_report;
use conformulator::report::conduct_text;
use conformulator::report::store_report;
use conformulator::report::ReportLookup;

fn sample_report() -> ConformanceReport {
    ConformanceReport {
        results: vec![ConformanceResult {
            repository: RepositoryRef {
                organization: String::from("rust-lang"),
                name: String::from("rust"),
            },
            conforms: true,
            reason: None,
        }],
        generated_at: 99,
    }
}

#[test]
fn conduct_calls_within_ttl_reuse_the_cached_string() {
    let mut cache = Cacheit::new();
    // First call computes (the text is handed in) and stores.
    assert_eq!(conduct_text(&mut cache, "satellite v1", 100), "satellite v1");
    // Second call within 5 seconds returns the cached string: even a changed
    // input cannot reach the result, so no second computation is observable.
    assert_eq!(conduct_text(&mut cache, "satellite v2", 104), "satellite v1");
    // Past the time-to-live the fresh text is used and stored again.
    assert_eq!(conduct_text(&mut cache, "satellite v2", 106), "satellite v2");
    assert_eq!(conduct_text(&mut cache, "satellite v3", 107), "satellite v2");
}

#[test]
fn stored_report_is_returned_on_lookup() {
    let mut cache = Cacheit::new();
    let report = sample_report();
    store_report(&mut cache, &report, 500);
    match cached_report(&cache, 500) {
        ReportLookup::Hit(found) => assert_eq!(found, report),
        _ => panic!("expected a hit"),
    }
    // Still fresh within the hour.
    match cached_report(&cache, 500 + 3600) {
        ReportLookup::Hit(found) => assert_eq!(found, report),
        _ => panic!("expected a hit"),
    }
}

#[test]
fn report_lookup_misses_when_empty_or_expired() {
    let mut cache = Cacheit::new();
    assert!(matches!(cached_report(&cache, 0), ReportLookup::Miss));
    store_report(&mut cache, &sample_report(), 500);
    assert!(matches!(cached_report(&cache, 500 + 3601), ReportLookup::Miss));
}

#[test]
fn undecodable_cached_text_is_reported_as_corrupt() {
    let mut cache = Cacheit::new();
    cache.set("conformance", "not an encoded report", 3600, 100);
    assert!(matches!(cached_report(&cache, 100), ReportLookup::Corrupt));
}

#[test]
fn report_and_conduct_share_one_cache_without_interfering() {
    let mut cache = Cacheit::new();
    store_report(&mut cache, &sample_report(), 100);
    assert_eq!(conduct_text(&mut cache, "sat", 100), "sat");
    assert!(matches!(cached_report(&cache, 101), ReportLookup::Hit(_)));
    // The conduct entry expires long before the report entry.
    assert_eq!(conduct_text(&mut cache, "sat later", 200), "sat later");
    assert!(matches!(cached_report(&cache, 200), ReportLookup::Hit(_)));
}

#[test]
fn healthcheck_is_constant() {
    assert_eq!(healthcheck(), "ok");
}
