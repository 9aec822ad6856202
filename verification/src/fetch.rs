//! Fetch-side logic: the failure taxonomy of one source retrieval, the
//! configured sources, admission control for the bounded concurrent fetch,
//! and the merge of per-source outcomes into one accumulator.
//!
//! The retrieval itself is network I/O and lives outside this crate; what is
//! here decides how its results are classified, scheduled and merged.

use vstd::prelude::*;
use vstd::string::*;
use crate::hosts::{domain_body_hosts, domainlist, hostfile, hostfile_body_hosts, HostSet};

verus! {

/// Upper bound on the number of fetch tasks admitted at once.
pub const CONCURRENT_FETCH_LIMIT: usize = 3;

// ---------------------------------------------------------------------------
// Failure taxonomy
// ---------------------------------------------------------------------------

/// How one source's retrieval failed. Every variant carries the offending
/// source URL.
pub enum AppError {
    /// The transport ended before the full body arrived.
    IncompleteBody { url: String },
    /// Some other failure while reading the response body.
    FetchBody { url: String },
    /// The body bytes could not be decoded as text.
    FetchParse { url: String },
    /// The request could not be constructed or sent.
    FetchRequest { url: String },
    /// Any other retrieval failure.
    Fetch { url: String },
}

/// The human-readable description of a fetch failure.
pub open spec fn message_of(e: &AppError) -> Seq<char> {
    match e {
        AppError::IncompleteBody { url } => "Error fetching blocklist `"@ + url@
            + "`: only received part of the file.  The network connection may be unstable."@,
        AppError::FetchBody { url } => "Error fetching blocklist `"@ + url@
            + "`: no response data or incomplete data.  The network connection may be unstable."@,
        AppError::FetchParse { url } => "Error parsing fetched data for blocklist `"@ + url@
            + "`.  It might be worth retrying later."@,
        AppError::FetchRequest { url } => "Error fetching blocklist `"@ + url@
            + "`: error requesting data.  The URL might be invalid, or there might be a network issue."@,
        AppError::Fetch { url } => "Error fetching blocklist `"@ + url@
            + "`.  Check the URL is correct an connection is up."@,
    }
}

impl AppError {
    /// Renders the failure as text.
    pub fn message(&self) -> (r: String)
        ensures
            r@ == message_of(self),
    {
        match self {
            AppError::IncompleteBody { url } => {
                let mut m = String::from_str("Error fetching blocklist `");
                m.append(url.as_str());
                m.append(
                    "`: only received part of the file.  The network connection may be unstable.",
                );
                m
            },
            AppError::FetchBody { url } => {
                let mut m = String::from_str("Error fetching blocklist `");
                m.append(url.as_str());
                m.append(
                    "`: no response data or incomplete data.  The network connection may be unstable.",
                );
                m
            },
            AppError::FetchParse { url } => {
                let mut m = String::from_str("Error parsing fetched data for blocklist `");
                m.append(url.as_str());
                m.append("`.  It might be worth retrying later.");
                m
            },
            AppError::FetchRequest { url } => {
                let mut m = String::from_str("Error fetching blocklist `");
                m.append(url.as_str());
                m.append(
                    "`: error requesting data.  The URL might be invalid, or there might be a network issue.",
                );
                m
            },
            AppError::Fetch { url } => {
                let mut m = String::from_str("Error fetching blocklist `");
                m.append(url.as_str());
                m.append("`.  Check the URL is correct an connection is up.");
                m
            },
        }
    }

    /// A structurally equal copy of the failure.
    pub fn duplicate(&self) -> (r: AppError)
        ensures
            r == *self,
    {
        match self {
            AppError::IncompleteBody { url } => AppError::IncompleteBody { url: url.clone() },
            AppError::FetchBody { url } => AppError::FetchBody { url: url.clone() },
            AppError::FetchParse { url } => AppError::FetchParse { url: url.clone() },
            AppError::FetchRequest { url } => AppError::FetchRequest { url: url.clone() },
            AppError::Fetch { url } => AppError::Fetch { url: url.clone() },
        }
    }
}

/// Classifies a failed retrieval from the facts the HTTP client reports
/// about its error; the first matching rule wins:
/// a body-read failure whose underlying transport error says the message was
/// incomplete is `IncompleteBody`; any other body-read failure is
/// `FetchBody`; otherwise a request-send failure is `FetchRequest`; anything
/// else is the generic `Fetch`.
pub fn classify_fetch_error(
    url: &str,
    is_body: bool,
    has_transport_source: bool,
    is_incomplete_message: bool,
    is_request: bool,
) -> (e: AppError)
    ensures
        (is_body && has_transport_source && is_incomplete_message) ==> (e
            matches AppError::IncompleteBody { url: u } && u@ == url@),
        (is_body && !(has_transport_source && is_incomplete_message)) ==> (e
            matches AppError::FetchBody { url: u } && u@ == url@),
        (!is_body && is_request) ==> (e matches AppError::FetchRequest { url: u } && u@ == url@),
        (!is_body && !is_request) ==> (e matches AppError::Fetch { url: u } && u@ == url@),
{
    if is_body {
        if has_transport_source && is_incomplete_message {
            return AppError::IncompleteBody { url: url.to_owned() };
        }
        return AppError::FetchBody { url: url.to_owned() };
    }
    if is_request {
        return AppError::FetchRequest { url: url.to_owned() };
    }
    AppError::Fetch { url: url.to_owned() }
}

// ---------------------------------------------------------------------------
// Sources
// ---------------------------------------------------------------------------

/// The line format a configured source serves.
pub enum SourceType {
    DomainList,
    HostsFile,
}

/// One configured remote source: its URL and the format of its lines.
pub struct Source {
    pub url: String,
    pub source_type: SourceType,
}

/// The two configured URL lists, one per format.
pub struct Blocklists {
    pub hosts_file_blocklist_urls: Vec<String>,
    pub domain_blocklist_urls: Vec<String>,
}

/// Flattens the configured lists into one source list: the hosts-file
/// sources first, in order, then the domain-list sources, in order.
pub fn sources_from_blocklists(blocklists: &Blocklists) -> (r: Vec<Source>)
    ensures
        r@.len() == blocklists.hosts_file_blocklist_urls@.len()
            + blocklists.domain_blocklist_urls@.len(),
        forall|i: int|
            0 <= i < blocklists.hosts_file_blocklist_urls@.len() ==> (#[trigger] r@[i].source_type
                is HostsFile && r@[i].url@ == blocklists.hosts_file_blocklist_urls@[i]@),
        forall|i: int|
            0 <= i < blocklists.domain_blocklist_urls@.len() ==> (#[trigger] r@[i
                + blocklists.hosts_file_blocklist_urls@.len()].source_type is DomainList && r@[i
                + blocklists.hosts_file_blocklist_urls@.len()].url@
                == blocklists.domain_blocklist_urls@[i]@),
{
    let mut result: Vec<Source> = Vec::new();
    let hn = blocklists.hosts_file_blocklist_urls.len();
    let mut i: usize = 0;
    while i < hn
        invariant
            i <= hn,
            hn == blocklists.hosts_file_blocklist_urls@.len(),
            result@.len() == i,
            forall|j: int|
                0 <= j < i ==> (#[trigger] result@[j].source_type is HostsFile && result@[j].url@
                    == blocklists.hosts_file_blocklist_urls@[j]@),
        decreases hn - i,
    {
        result.push(
            Source {
                url: blocklists.hosts_file_blocklist_urls[i].clone(),
                source_type: SourceType::HostsFile,
            },
        );
        i = i + 1;
    }
    let dn = blocklists.domain_blocklist_urls.len();
    let mut k: usize = 0;
    while k < dn
        invariant
            k <= dn,
            hn == blocklists.hosts_file_blocklist_urls@.len(),
            dn == blocklists.domain_blocklist_urls@.len(),
            result@.len() == hn + k,
            forall|j: int|
                0 <= j < hn ==> (#[trigger] result@[j].source_type is HostsFile && result@[j].url@
                    == blocklists.hosts_file_blocklist_urls@[j]@),
            forall|j: int|
                0 <= j < k ==> (#[trigger] result@[j + hn].source_type is DomainList && result@[j
                    + hn].url@ == blocklists.domain_blocklist_urls@[j]@),
        decreases dn - k,
    {
        result.push(
            Source {
                url: blocklists.domain_blocklist_urls[k].clone(),
                source_type: SourceType::DomainList,
            },
        );
        k = k + 1;
    }
    result
}

/// Builds the host set named by one fetched body under its source's format.
pub fn build_host_set(body: &str, source_type: &SourceType) -> (r: HostSet)
    ensures
        r.wf(),
        r@ == (match source_type {
            SourceType::DomainList => domain_body_hosts(body@),
            SourceType::HostsFile => hostfile_body_hosts(body@),
        }),
{
    let mut set = HostSet::new();
    match source_type {
        SourceType::DomainList => domainlist(body, &mut set),
        SourceType::HostsFile => hostfile(body, &mut set),
    }
    proof {
        assert(set@ =~= (match source_type {
            SourceType::DomainList => domain_body_hosts(body@),
            SourceType::HostsFile => hostfile_body_hosts(body@),
        }));
    }
    set
}

// ---------------------------------------------------------------------------
// Admission control for the concurrent fetch
// ---------------------------------------------------------------------------

/// Admission control for fetching the configured sources concurrently: tasks
/// are dispatched in source order, at most `CONCURRENT_FETCH_LIMIT` of them
/// in flight at once; a new task is admitted only once a running one has
/// finished.
pub struct FetchSchedule {
    total: usize,
    started: usize,
    finished: usize,
}

impl FetchSchedule {
    /// Number of configured sources.
    pub closed spec fn spec_total(&self) -> int {
        self.total as int
    }

    /// Number of tasks dispatched so far.
    pub closed spec fn spec_started(&self) -> int {
        self.started as int
    }

    /// Number of tasks that have completed (successfully or not).
    pub closed spec fn spec_finished(&self) -> int {
        self.finished as int
    }

    /// Number of tasks dispatched and not yet completed.
    pub open spec fn spec_in_flight(&self) -> int {
        self.spec_started() - self.spec_finished()
    }

    /// Well-formed: completions never outrun dispatches, dispatches never
    /// outrun the source count, and the in-flight count never exceeds the
    /// concurrency cap.
    pub closed spec fn wf(&self) -> bool {
        self.finished <= self.started && self.started <= self.total && self.started - self.finished
            <= CONCURRENT_FETCH_LIMIT
    }

    /// A fresh schedule for `total` sources, with nothing dispatched.
    pub fn new(total: usize) -> (r: FetchSchedule)
        ensures
            r.wf(),
            r.spec_total() == total,
            r.spec_started() == 0,
            r.spec_finished() == 0,
    {
        FetchSchedule { total, started: 0, finished: 0 }
    }

    /// Admits the next fetch task when a source remains and the concurrency
    /// cap leaves room, returning the index of the source to fetch.
    pub fn try_admit(&mut self) -> (r: Option<usize>)
        requires
            old(self).wf(),
        ensures
            final(self).wf(),
            final(self).spec_total() == old(self).spec_total(),
            final(self).spec_finished() == old(self).spec_finished(),
            r is Some <==> (old(self).spec_started() < old(self).spec_total() && old(
                self,
            ).spec_in_flight() < CONCURRENT_FETCH_LIMIT),
            r is Some ==> r.unwrap() == old(self).spec_started() && final(self).spec_started()
                == old(self).spec_started() + 1,
            r is None ==> *final(self) == *old(self),
            final(self).spec_in_flight() <= CONCURRENT_FETCH_LIMIT,
    {
        if self.started < self.total && self.started - self.finished < CONCURRENT_FETCH_LIMIT {
            let idx = self.started;
            self.started = self.started + 1;
            Some(idx)
        } else {
            None
        }
    }

    /// Records that one in-flight task has completed.
    pub fn task_finished(&mut self)
        requires
            old(self).wf(),
            old(self).spec_in_flight() >= 1,
        ensures
            final(self).wf(),
            final(self).spec_total() == old(self).spec_total(),
            final(self).spec_started() == old(self).spec_started(),
            final(self).spec_finished() == old(self).spec_finished() + 1,
    {
        self.finished = self.finished + 1;
    }

    /// Number of tasks currently in flight.
    pub fn in_flight(&self) -> (n: usize)
        requires
            self.wf(),
        ensures
            n == self.spec_in_flight(),
    {
        self.started - self.finished
    }

    /// Whether every dispatched task has completed and every source has been
    /// dispatched.
    pub fn all_finished(&self) -> (r: bool)
        ensures
            r == (self.spec_finished() == self.spec_total()),
    {
        self.finished == self.total
    }
}

/// Law: however admissions and completions interleave, a well-formed
/// schedule never has more than `CONCURRENT_FETCH_LIMIT` tasks in flight.
pub proof fn lemma_concurrency_cap(s: &FetchSchedule)
    requires
        s.wf(),
    ensures
        s.spec_in_flight() <= CONCURRENT_FETCH_LIMIT,
{
}

// ---------------------------------------------------------------------------
// Merging per-source outcomes
// ---------------------------------------------------------------------------

/// Index of the first failed outcome, or the length when every outcome
/// succeeded.
pub open spec fn first_err_idx(s: Seq<Result<HostSet, AppError>>) -> int
    decreases s.len(),
{
    if s.len() == 0 {
        0
    } else if s[0] is Err {
        0
    } else {
        1 + first_err_idx(s.skip(1))
    }
}

pub proof fn lemma_first_err_characterization(s: Seq<Result<HostSet, AppError>>)
    ensures
        0 <= first_err_idx(s) <= s.len(),
        forall|j: int| 0 <= j < first_err_idx(s) ==> !(#[trigger] s[j] is Err),
        first_err_idx(s) < s.len() ==> s[first_err_idx(s)] is Err,
    decreases s.len(),
{
    if s.len() > 0 && !(s[0] is Err) {
        lemma_first_err_characterization(s.skip(1));
        assert forall|j: int| 0 <= j < first_err_idx(s) implies !(#[trigger] s[j] is Err) by {
            if j > 0 {
                assert(!(s.skip(1)[j - 1] is Err));
            }
        }
    }
}

/// Union of the host sets of the successful outcomes.
pub open spec fn union_ok_views(s: Seq<Result<HostSet, AppError>>) -> Set<Seq<char>>
    decreases s.len(),
{
    if s.len() == 0 {
        Set::<Seq<char>>::empty()
    } else {
        union_ok_views(s.drop_last()).union(
            match s.last() {
                Result::Ok(h) => h@,
                Result::Err(_) => Set::<Seq<char>>::empty(),
            },
        )
    }
}

/// Merges the per-source outcomes into `acc` under the fail-fast policy,
/// applied uniformly to both source formats: if any source failed, the first
/// failure (in outcome order) is returned and `acc` is left unchanged;
/// otherwise every per-source set is unioned into `acc` and the merge
/// succeeds.
pub fn merge_outcomes(outcomes: Vec<Result<HostSet, AppError>>, acc: &mut HostSet) -> (r: Result<
    (),
    AppError,
>)
    requires
        old(acc).wf(),
    ensures
        final(acc).wf(),
        first_err_idx(outcomes@) == outcomes@.len() ==> (r is Ok && final(acc)@ == old(
            acc,
        )@.union(union_ok_views(outcomes@))),
        first_err_idx(outcomes@) < outcomes@.len() ==> (*final(acc) == *old(acc) && (r matches Err(
            e,
        ) && outcomes@[first_err_idx(outcomes@)] matches Err(e0) && e == e0)),
{
    proof {
        lemma_first_err_characterization(outcomes@);
    }
    let n = outcomes.len();
    let mut i: usize = 0;
    while i < n
        invariant
            i <= n,
            n == outcomes@.len(),
            acc == old(acc),
            forall|j: int| 0 <= j < i ==> !(#[trigger] outcomes@[j] is Err),
        decreases n - i,
    {
        match &outcomes[i] {
            Result::Err(e) => {
                proof {
                    lemma_first_err_is(outcomes@, i as int);
                }
                return Result::Err(e.duplicate());
            },
            Result::Ok(_) => {},
        }
        i = i + 1;
    }
    proof {
        lemma_first_err_is(outcomes@, n as int);
    }
    let ghost orig = outcomes@;
    let mut rest = outcomes;
    proof {
        assert(old(acc)@.union(union_ok_views(orig)) =~= acc@.union(union_ok_views(rest@)));
    }
    while rest.len() > 0
        invariant
            acc.wf(),
            forall|j: int| 0 <= j < rest@.len() ==> !(#[trigger] rest@[j] is Err),
            old(acc)@.union(union_ok_views(orig)) == acc@.union(union_ok_views(rest@)),
        decreases rest@.len(),
    {
        let ghost prev = rest@;
        let ghost acc_prev = acc@;
        let last = rest.pop();
        match last {
            Option::Some(outcome) => {
                match outcome {
                    Result::Ok(hs) => {
                        acc.extend_from(&hs);
                        proof {
                            assert(rest@ =~= prev.drop_last());
                            assert(union_ok_views(prev) == union_ok_views(prev.drop_last()).union(
                                hs@,
                            ));
                            assert(acc@.union(union_ok_views(rest@)) =~= acc_prev.union(
                                union_ok_views(prev),
                            ));
                        }
                    },
                    Result::Err(e) => {
                        proof {
                            assert(prev[prev.len() - 1] is Err);
                            assert(false);
                        }
                        return Result::Err(e);
                    },
                }
            },
            Option::None => {
                proof {
                    assert(false);
                }
            },
        }
    }
    proof {
        assert(union_ok_views(rest@) =~= Set::<Seq<char>>::empty());
        assert(acc@.union(union_ok_views(rest@)) =~= acc@);
        assert(old(acc)@.union(union_ok_views(orig)) =~= acc@);
    }
    Result::Ok(())
}

/// If the first `k` outcomes succeeded and the repetition stops there, the
/// first failure index is exactly `k`.
proof fn lemma_first_err_is(s: Seq<Result<HostSet, AppError>>, k: int)
    requires
        0 <= k <= s.len(),
        forall|j: int| 0 <= j < k ==> !(#[trigger] s[j] is Err),
        k < s.len() ==> s[k] is Err,
    ensures
        first_err_idx(s) == k,
    decreases s.len(),
{
    if k > 0 {
        assert(!(s[0] is Err));
        lemma_first_err_is(s.skip(1), k - 1);
    }
}

} // verus!
