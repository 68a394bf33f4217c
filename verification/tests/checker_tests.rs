use conformulator::checker::check;
use conformulator::checker::collect_repositories;
use conformulator::checker::organizations;
use conformulator::checker::ConformanceResult;
use conformulator::checker::FetchOutcome;
use conformulator::checker::RepositoryRef;
use conformulator::comparator::CanonicalDocument;

fn doc() -> CanonicalDocument {
    CanonicalDocument::new(String::from("BASE\n"), String::from("SATELLITE\n"))
}

fn repo(org: &str, name: &str) -> RepositoryRef {
    RepositoryRef { organization: String::from(org), name: String::from(name) }
}

#[test]
fn report_is_complete_for_any_mix_of_outcomes() {
    let repos = vec![repo("o", "a"), repo("o", "b"), repo("o", "c"), repo("o", "d")];
    let outcomes = vec![
        FetchOutcome::Fetched(String::from("BASE\n")),
        FetchOutcome::FetchFailed,
        FetchOutcome::Fetched(String::from("wrong")),
        FetchOutcome::Fetched(String::from("SATELLITE\n")),
    ];
    let report = check(&repos, &outcomes, &doc(), 42);
    assert_eq!(report.generated_at, 42);
    assert_eq!(report.results.len(), 4);
    for (i, r) in report.results.iter().enumerate() {
        assert_eq!(r.repository, repos[i]);
    }
    assert!(report.results[0].conforms);
    assert_eq!(report.results[0].reason, None);
    assert!(!report.results[1].conforms);
    assert_eq!(report.results[1].reason, Some(String::from("fetch error")));
    assert!(!report.results[2].conforms);
    assert_eq!(report.results[2].reason, Some(String::from("content mismatch")));
    assert!(report.results[3].conforms);
    assert_eq!(report.results[3].reason, None);
}

#[test]
fn scenario_one_org_one_pass_one_fetch_failure() {
    let orgs = vec![String::from("orgA")];
    let lists = vec![vec![String::from("r1"), String::from("r2")]];
    let repos = collect_repositories(&orgs, &lists);
    assert_eq!(repos, vec![repo("orgA", "r1"), repo("orgA", "r2")]);

    let base = String::from("BASE\n");
    let outcomes = vec![FetchOutcome::Fetched(base), FetchOutcome::FetchFailed];
    let report = check(&repos, &outcomes, &doc(), 7);
    assert_eq!(
        report.results,
        vec![
            ConformanceResult { repository: repo("orgA", "r1"), conforms: true, reason: None },
            ConformanceResult {
                repository: repo("orgA", "r2"),
                conforms: false,
                reason: Some(String::from("fetch error")),
            },
        ]
    );
}

#[test]
fn collect_keeps_order_and_duplicates() {
    let orgs = vec![String::from("one"), String::from("two")];
    let lists = vec![
        vec![String::from("shared"), String::from("only-one")],
        vec![String::from("shared")],
    ];
    let repos = collect_repositories(&orgs, &lists);
    assert_eq!(
        repos,
        vec![repo("one", "shared"), repo("one", "only-one"), repo("two", "shared")]
    );
}

#[test]
fn collect_tolerates_organizations_without_repositories() {
    let orgs = vec![String::from("empty"), String::from("full")];
    let lists = vec![vec![], vec![String::from("r")]];
    let repos = collect_repositories(&orgs, &lists);
    assert_eq!(repos, vec![repo("full", "r")]);
}

#[test]
fn empty_input_gives_empty_report() {
    let report = check(&vec![], &vec![], &doc(), 1);
    assert_eq!(report.results.len(), 0);
    assert_eq!(report.generated_at, 1);
}

#[test]
fn organizations_are_the_tracked_three() {
    let orgs = organizations();
    assert_eq!(
        orgs,
        vec![
            String::from("rust-lang"),
            String::from("rust-lang-nursery"),
            String::from("rust-lang-deprecated"),
        ]
    );
}
