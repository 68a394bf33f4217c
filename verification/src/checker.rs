//! The conformance checker: turns the repositories of the configured
//! organizations and the outcome of each document fetch into a complete
//! report, one result per repository, in input order.
//!
//! The network itself stays outside: callers list repositories and fetch
//! documents, and hand the outcomes in as plain values. A failure for one
//! repository never disturbs the result for another.

use vstd::prelude::*;

use crate::comparator::CanonicalDocument;
use crate::comparator::DocumentModel;
use crate::comparator::spec_conformant;

verus! {

/// Identifies one repository of one organization.
#[derive(Debug, PartialEq, Eq)]
pub struct RepositoryRef {
    pub organization: String,
    pub name: String,
}

/// The mathematical content of a repository reference.
pub struct RepoRefModel {
    pub organization: Seq<char>,
    pub name: Seq<char>,
}

impl View for RepositoryRef {
    type V = RepoRefModel;

    open spec fn view(&self) -> RepoRefModel {
        RepoRefModel { organization: self.organization@, name: self.name@ }
    }
}

impl DeepView for RepositoryRef {
    type V = RepoRefModel;

    open spec fn deep_view(&self) -> RepoRefModel {
        self.view()
    }
}

impl Clone for RepositoryRef {
    fn clone(&self) -> (r: Self)
        ensures
            r@ == self@,
    {
        RepositoryRef { organization: self.organization.clone(), name: self.name.clone() }
    }
}

/// What a fetch of one repository's conduct document produced: the document
/// text, or a failure (network error, non-success status, timeout).
#[derive(Debug, PartialEq, Eq)]
pub enum FetchOutcome {
    Fetched(String),
    FetchFailed,
}

impl View for FetchOutcome {
    type V = Option<Seq<char>>;

    open spec fn view(&self) -> Option<Seq<char>> {
        match self {
            FetchOutcome::Fetched(text) => Some(text@),
            FetchOutcome::FetchFailed => None,
        }
    }
}

/// The verdict for one repository. `reason` is set only on failure, and
/// distinguishes a failed fetch from a fetched document that does not match
/// either canonical form.
#[derive(Debug, PartialEq, Eq)]
pub struct ConformanceResult {
    pub repository: RepositoryRef,
    pub conforms: bool,
    pub reason: Option<String>,
}

/// The mathematical content of one verdict.
pub struct ResultModel {
    pub repository: RepoRefModel,
    pub conforms: bool,
    pub reason: Option<Seq<char>>,
}

impl View for ConformanceResult {
    type V = ResultModel;

    open spec fn view(&self) -> ResultModel {
        ResultModel {
            repository: self.repository@,
            conforms: self.conforms,
            reason: self.reason.deep_view(),
        }
    }
}

/// The aggregate outcome of one checker run: one result per repository, in
/// input order, stamped with the time the run was made.
#[derive(Debug, PartialEq, Eq)]
pub struct ConformanceReport {
    pub results: Vec<ConformanceResult>,
    pub generated_at: u64,
}

/// The mathematical content of a report.
pub struct ReportModel {
    pub results: Seq<ResultModel>,
    pub generated_at: u64,
}

impl View for ConformanceReport {
    type V = ReportModel;

    open spec fn view(&self) -> ReportModel {
        ReportModel {
            results: Seq::new(self.results@.len(), |i: int| self.results@[i]@),
            generated_at: self.generated_at,
        }
    }
}

/// The verdict owed to one repository given its fetch outcome: a failed fetch
/// is non-conformant with reason "fetch error"; a fetched document that
/// matches neither canonical form is non-conformant with reason "content
/// mismatch"; a matching document conforms, with no reason.
pub open spec fn spec_result_for(
    doc: DocumentModel,
    repo: RepoRefModel,
    outcome: Option<Seq<char>>,
) -> ResultModel {
    match outcome {
        None => ResultModel { repository: repo, conforms: false, reason: Some("fetch error"@) },
        Some(text) => if spec_conformant(doc, text) {
            ResultModel { repository: repo, conforms: true, reason: None }
        } else {
            ResultModel {
                repository: repo,
                conforms: false,
                reason: Some("content mismatch"@),
            }
        },
    }
}

/// Runs the comparator over every repository's fetch outcome and assembles
/// the complete report: exactly one result per repository, in input order,
/// each the verdict `spec_result_for` owes it. No outcome aborts the run.
pub fn check(
    repos: &Vec<RepositoryRef>,
    outcomes: &Vec<FetchOutcome>,
    doc: &CanonicalDocument,
    now: u64,
) -> (report: ConformanceReport)
    requires
        repos@.len() == outcomes@.len(),
    ensures
        report@.generated_at == now,
        report@.results.len() == repos@.len(),
        forall|i: int|
            0 <= i < repos@.len() ==> report@.results[i] == spec_result_for(
                doc@,
                repos@[i]@,
                outcomes@[i]@,
            ),
{
    let n = repos.len();
    let mut results: Vec<ConformanceResult> = Vec::new();
    for i in 0..n
        invariant
            n == repos@.len(),
            n == outcomes@.len(),
            results@.len() == i,
            forall|j: int|
                0 <= j < i ==> results@[j]@ == spec_result_for(doc@, repos@[j]@, outcomes@[j]@),
    {
        let repository = repos[i].clone();
        let result = match &outcomes[i] {
            FetchOutcome::FetchFailed => ConformanceResult {
                repository,
                conforms: false,
                reason: Some(String::from_str("fetch error")),
            },
            FetchOutcome::Fetched(text) => {
                if doc.is_conformant(text.as_str()) {
                    ConformanceResult { repository, conforms: true, reason: None }
                } else {
                    ConformanceResult {
                        repository,
                        conforms: false,
                        reason: Some(String::from_str("content mismatch")),
                    }
                }
            },
        };
        results.push(result);
    }
    ConformanceReport { results, generated_at: now }
}

/// The fixed list of organizations whose repositories are audited.
pub fn organizations() -> (orgs: Vec<String>)
    ensures
        orgs@.len() == 3,
        orgs@[0]@ == "rust-lang"@,
        orgs@[1]@ == "rust-lang-nursery"@,
        orgs@[2]@ == "rust-lang-deprecated"@,
{
    let mut orgs: Vec<String> = Vec::new();
    orgs.push(String::from_str("rust-lang"));
    orgs.push(String::from_str("rust-lang-nursery"));
    orgs.push(String::from_str("rust-lang-deprecated"));
    orgs
}

/// The repository references owed for the given organizations and their
/// repository lists: the organizations in order, each organization's
/// repositories in their given order, concatenated. Duplicates across
/// organizations are kept.
pub open spec fn spec_collect(orgs: Seq<Seq<char>>, lists: Seq<Seq<Seq<char>>>) -> Seq<
    RepoRefModel,
>
    decreases orgs.len(),
{
    if orgs.len() == 0 {
        Seq::empty()
    } else {
        spec_collect(orgs.drop_last(), lists.drop_last()) + lists.last().map(
            |i: int, name: Seq<char>| RepoRefModel { organization: orgs.last(), name: name },
        )
    }
}

/// Concatenates the organizations' repository lists into one sequence of
/// repository references, organization order first, then source-provided
/// repository order, without deduplication.
pub fn collect_repositories(orgs: &Vec<String>, lists: &Vec<Vec<String>>) -> (repos: Vec<
    RepositoryRef,
>)
    requires
        orgs@.len() == lists@.len(),
    ensures
        repos.deep_view() == spec_collect(orgs.deep_view(), lists.deep_view()),
{
    let n = orgs.len();
    let mut repos: Vec<RepositoryRef> = Vec::new();
    for i in 0..n
        invariant
            n == orgs@.len(),
            n == lists@.len(),
            repos.deep_view() == spec_collect(
                orgs.deep_view().take(i as int),
                lists.deep_view().take(i as int),
            ),
    {
        let m = lists[i].len();
        for j in 0..m
            invariant
                n == orgs@.len(),
                n == lists@.len(),
                i < n,
                m == lists@[i as int]@.len(),
                repos.deep_view() == spec_collect(
                    orgs.deep_view().take(i as int),
                    lists.deep_view().take(i as int),
                ) + lists.deep_view()[i as int].take(j as int).map(
                    |k: int, name: Seq<char>|
                        RepoRefModel { organization: orgs.deep_view()[i as int], name: name },
                ),
        {
            let r = RepositoryRef { organization: orgs[i].clone(), name: lists[i][j].clone() };
            let ghost prev = repos.deep_view();
            repos.push(r);
            proof {
                let olist = lists.deep_view()[i as int];
                let f = |k: int, name: Seq<char>|
                    RepoRefModel { organization: orgs.deep_view()[i as int], name: name };
                assert(repos.deep_view() =~= prev.push(r.deep_view()));
                assert(r.deep_view() == f(j as int, olist[j as int]));
                assert(olist.take(j + 1).drop_last() =~= olist.take(j as int));
                assert(olist.take(j + 1).map(f) =~= olist.take(j as int).map(f).push(
                    f(j as int, olist[j as int]),
                ));
                assert(repos.deep_view() =~= spec_collect(
                    orgs.deep_view().take(i as int),
                    lists.deep_view().take(i as int),
                ) + olist.take(j + 1).map(f));
            }
        }
        proof {
            let odv = orgs.deep_view();
            let ldv = lists.deep_view();
            assert(odv.take(i + 1).drop_last() =~= odv.take(i as int));
            assert(ldv.take(i + 1).drop_last() =~= ldv.take(i as int));
            assert(odv.take(i + 1).last() == odv[i as int]);
            assert(ldv.take(i + 1).last() =~= ldv[i as int]);
            assert(ldv[i as int].take(m as int) =~= ldv[i as int]);
            assert(repos.deep_view() =~= spec_collect(odv.take(i + 1), ldv.take(i + 1)));
        }
    }
    proof {
        assert(orgs.deep_view().take(n as int) =~= orgs.deep_view());
        assert(lists.deep_view().take(n as int) =~= lists.deep_view());
    }
    repos
}

} // verus!
