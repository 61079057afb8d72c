//! Fetching every issue of a site: the project listing and then each
//! project's issue search, page by page. The app performs each request and
//! hands the answer back; the decisions stand here.

use vstd::prelude::*;
use crate::issue::Issue;
use crate::jira::{
    from_api_is, primary_resource, same_site, project_jql, project_jql_text, push_str, ApiIssue,
    JiraResource, ProjectPage, ProjectRef, SavedSession, SearchResponse,
};
use crate::keys::{views, KeySet};
use crate::text::string_of;

verus! {

/// Whether no issue before position `i` has the key of the issue at `i`.
pub open spec fn first_of_key(s: Seq<Issue>, i: int) -> bool {
    forall|j: int| 0 <= j < i ==> #[trigger] s[j].key@ != s[i].key@
}

/// The issues with later duplicates of a key dropped: the first issue of
/// each key stays, in the order the issues came.
pub open spec fn unique_by_key_spec(s: Seq<Issue>) -> Seq<Issue>
    decreases s.len(),
{
    if s.len() == 0 {
        seq![]
    } else {
        let rest = unique_by_key_spec(s.drop_last());
        if first_of_key(s, s.len() - 1) {
            rest.push(s.last())
        } else {
            rest
        }
    }
}

/// The items of `v` in reverse order.
fn reversed<T>(v: Vec<T>) -> (r: Vec<T>)
    ensures
        r@.len() == v@.len(),
        forall|k: int| 0 <= k < r@.len() ==> #[trigger] r@[k] == v@[v@.len() - 1 - k],
{
    let ghost s = v@;
    let mut rest = v;
    let mut out: Vec<T> = Vec::new();
    while rest.len() > 0
        invariant
            rest@ == s.take(rest@.len() as int),
            out@.len() + rest@.len() == s.len(),
            forall|k: int| 0 <= k < out@.len() ==> #[trigger] out@[k] == s[s.len() - 1 - k],
        decreases rest@.len(),
    {
        let ghost before = rest@;
        let x = rest.pop().unwrap();
        assert(x == s[before.len() - 1]);
        out.push(x);
        assert(rest@ =~= s.take(rest@.len() as int));
    }
    out
}

/// Drops later issues whose key an earlier issue already has, keeping the
/// order, as a fetch does before it hands its result out.
pub fn unique_by_key(issues: Vec<Issue>) -> (r: Vec<Issue>)
    ensures
        r@ == unique_by_key_spec(issues@),
{
    let ghost s = issues@;
    let mut rev = reversed(issues);
    let mut out: Vec<Issue> = Vec::new();
    let mut seen = KeySet::new();
    let total = rev.len();
    let mut i: usize = 0;
    while rev.len() > 0
        invariant
            s.len() == total,
            i + rev@.len() == s.len(),
            forall|k: int| 0 <= k < rev@.len() ==> #[trigger] rev@[k] == s[s.len() - 1 - k],
            out@ == unique_by_key_spec(s.take(i as int)),
            forall|key: Seq<char>|
                seen@.contains(key) <==> exists|j: int| 0 <= j < i && #[trigger] s[j].key@ == key,
        decreases rev@.len(),
    {
        let ghost before = rev@;
        let x = rev.pop().unwrap();
        assert(x == s[i as int]);
        let ghost t = s.take(i + 1);
        assert(t.drop_last() =~= s.take(i as int));
        assert(t.last() == s[i as int]);
        proof {
            if first_of_key(t, i as int) {
                assert forall|j: int| 0 <= j < i implies s[j].key@ != s[i as int].key@ by {
                    assert(t[j] == s[j]);
                }
            } else {
                let j = choose|j: int| 0 <= j < i && #[trigger] t[j].key@ == t[i as int].key@;
                assert(t[j] == s[j]);
            }
        }
        let fresh = seen.insert(x.key.clone());
        if fresh {
            out.push(x);
        }
        i = i + 1;
        assert forall|key: Seq<char>|
            seen@.contains(key) <==> exists|j: int| 0 <= j < i && #[trigger] s[j].key@ == key by {
            if seen@.contains(key) && key != s[i - 1].key@ {
                let j = choose|j: int| 0 <= j < i - 1 && #[trigger] s[j].key@ == key;
                assert(0 <= j < i);
            }
            if exists|j: int| 0 <= j < i && #[trigger] s[j].key@ == key {
                let j = choose|j: int| 0 <= j < i && #[trigger] s[j].key@ == key;
                if j < i - 1 {
                    assert(exists|j2: int| 0 <= j2 < i - 1 && #[trigger] s[j2].key@ == key);
                }
            }
        }
    }
    assert(s.take(i as int) =~= s);
    out
}

/// Each kept issue is the first issue of its key in the input.
proof fn lemma_unique_from_input(s: Seq<Issue>, k: int)
    requires
        0 <= k < unique_by_key_spec(s).len(),
    ensures
        exists|i: int| #![trigger s[i]] 0 <= i < s.len() && first_of_key(s, i) && unique_by_key_spec(s)[k] == s[i],
    decreases s.len(),
{
    let p = s.drop_last();
    let n = s.len() - 1;
    let up = unique_by_key_spec(p);
    let u = unique_by_key_spec(s);
    if k < up.len() {
        lemma_unique_from_input(p, k);
        let i = choose|i: int| #![trigger p[i]] 0 <= i < p.len() && first_of_key(p, i) && up[k] == p[i];
        assert(u[k] == up[k]);
        assert forall|j: int| 0 <= j < i implies #[trigger] s[j].key@ != s[i].key@ by {
            assert(p[j] == s[j]);
            assert(p[i] == s[i]);
        }
        assert(s[i] == p[i]);
    } else {
        assert(first_of_key(s, n));
        assert(u[k] == s[n]);
    }
}

/// After the duplicates are dropped no two issues share a key.
proof fn lemma_unique_distinct(s: Seq<Issue>, a: int, b: int)
    requires
        0 <= a < b < unique_by_key_spec(s).len(),
    ensures
        unique_by_key_spec(s)[a].key@ != unique_by_key_spec(s)[b].key@,
    decreases s.len(),
{
    let p = s.drop_last();
    let n = s.len() - 1;
    let up = unique_by_key_spec(p);
    let u = unique_by_key_spec(s);
    if b < up.len() {
        lemma_unique_distinct(p, a, b);
        if first_of_key(s, n) {
            assert(u[a] == up[a] && u[b] == up[b]);
        }
    } else {
        assert(first_of_key(s, n));
        assert(u[a] == up[a]);
        lemma_unique_from_input(p, a);
        let i = choose|i: int| #![trigger p[i]] 0 <= i < p.len() && first_of_key(p, i) && up[a] == p[i];
        assert(p[i] == s[i]);
        assert(s[i].key@ != s[n].key@);
    }
}

/// The first issue of each key is kept.
proof fn lemma_unique_keeps_first(s: Seq<Issue>, i: int)
    requires
        0 <= i < s.len(),
        first_of_key(s, i),
    ensures
        exists|k: int| #![trigger unique_by_key_spec(s)[k]] 0 <= k < unique_by_key_spec(s).len() && unique_by_key_spec(s)[k] == s[i],
    decreases s.len(),
{
    let p = s.drop_last();
    let n = s.len() - 1;
    let up = unique_by_key_spec(p);
    let u = unique_by_key_spec(s);
    if i == n {
        assert(u[up.len() as int] == s[i]);
    } else {
        assert forall|j: int| 0 <= j < i implies #[trigger] p[j].key@ != p[i].key@ by {
            assert(p[j] == s[j]);
            assert(p[i] == s[i]);
        }
        lemma_unique_keeps_first(p, i);
        let k = choose|k: int| #![trigger up[k]] 0 <= k < up.len() && up[k] == p[i];
        assert(u[k] == up[k]);
        assert(p[i] == s[i]);
    }
}

/// The first position that holds the key of position `i`.
proof fn lemma_first_position(s: Seq<Issue>, i: int) -> (j: int)
    requires
        0 <= i < s.len(),
    ensures
        0 <= j <= i,
        s[j].key@ == s[i].key@,
        first_of_key(s, j),
    decreases i,
{
    if first_of_key(s, i) {
        i
    } else {
        let j0 = choose|j: int| 0 <= j < i && #[trigger] s[j].key@ == s[i].key@;
        lemma_first_position(s, j0)
    }
}

/// After the duplicates are dropped no two issues share a key, every issue
/// that was the first of its key is still there, and so every key of the
/// input still is.
pub proof fn law_unique_by_key(s: Seq<Issue>)
    ensures
        forall|a: int, b: int|
            0 <= a < b < unique_by_key_spec(s).len() ==>
                #[trigger] unique_by_key_spec(s)[a].key@ != #[trigger] unique_by_key_spec(s)[b].key@,
        forall|i: int|
            #![trigger s[i]]
            0 <= i < s.len() && first_of_key(s, i) ==>
                exists|k: int| 0 <= k < unique_by_key_spec(s).len() && #[trigger] unique_by_key_spec(s)[k] == s[i],
        forall|i: int|
            #![trigger s[i]]
            0 <= i < s.len() ==>
                exists|k: int| 0 <= k < unique_by_key_spec(s).len() && #[trigger] unique_by_key_spec(s)[k].key@ == s[i].key@,
{
    let u = unique_by_key_spec(s);
    assert forall|a: int, b: int| 0 <= a < b < u.len() implies #[trigger] u[a].key@ != #[trigger] u[b].key@ by {
        lemma_unique_distinct(s, a, b);
    }
    assert forall|i: int| #![trigger s[i]] 0 <= i < s.len() && first_of_key(s, i) implies
        exists|k: int| 0 <= k < u.len() && #[trigger] u[k] == s[i] by {
        lemma_unique_keeps_first(s, i);
    }
    assert forall|i: int| #![trigger s[i]] 0 <= i < s.len() implies
        exists|k: int| 0 <= k < u.len() && #[trigger] u[k].key@ == s[i].key@ by {
        let j = lemma_first_position(s, i);
        lemma_unique_keeps_first(s, j);
        let k = choose|k: int| #![trigger u[k]] 0 <= k < u.len() && u[k] == s[j];
        assert(u[k].key@ == s[i].key@);
    }
}

/// How many items one page asks for.
pub const PAGE_SIZE: u16 = 100;

/// The most pages one listing may take before the fetch gives up.
pub const MAX_PAGES: usize = 1000;

/// The fields an issue search asks for.
pub open spec fn search_field_names() -> Seq<Seq<char>> {
    seq![
        "summary"@,
        "status"@,
        "issuetype"@,
        "assignee"@,
        "duedate"@,
        "timeoriginalestimate"@,
        "timespent"@,
        "parent"@,
        "description"@,
        "comment"@,
    ]
}

/// The fields an issue search asks for.
pub fn search_fields() -> (r: Vec<String>)
    ensures
        views(r@) == search_field_names(),
{
    let r = vec![
        "summary".to_owned(),
        "status".to_owned(),
        "issuetype".to_owned(),
        "assignee".to_owned(),
        "duedate".to_owned(),
        "timeoriginalestimate".to_owned(),
        "timespent".to_owned(),
        "parent".to_owned(),
        "description".to_owned(),
        "comment".to_owned(),
    ];
    assert(views(r@) =~= search_field_names());
    r
}

/// The address of a site's project search.
pub open spec fn projects_endpoint_text(site_id: Seq<char>) -> Seq<char> {
    "https://api.atlassian.com/ex/jira/"@ + site_id + "/rest/api/3/project/search"@
}

/// The address of a site's JQL issue search.
pub open spec fn search_endpoint_text(site_id: Seq<char>) -> Seq<char> {
    "https://api.atlassian.com/ex/jira/"@ + site_id + "/rest/api/3/search/jql"@
}

/// The address of a site's project search.
pub fn projects_endpoint(site_id: &str) -> (r: String)
    ensures
        r@ == projects_endpoint_text(site_id@),
{
    let mut out: Vec<char> = Vec::new();
    push_str(&mut out, "https://api.atlassian.com/ex/jira/");
    push_str(&mut out, site_id);
    push_str(&mut out, "/rest/api/3/project/search");
    string_of(&out)
}

/// The address of a site's JQL issue search.
pub fn search_endpoint(site_id: &str) -> (r: String)
    ensures
        r@ == search_endpoint_text(site_id@),
{
    let mut out: Vec<char> = Vec::new();
    push_str(&mut out, "https://api.atlassian.com/ex/jira/");
    push_str(&mut out, site_id);
    push_str(&mut out, "/rest/api/3/search/jql");
    string_of(&out)
}

/// A request the app is to send, or the end of the fetch.
pub enum FetchAction {
    /// Ask for one page of the project list.
    ListProjects { endpoint: String, start_at: usize, max_results: usize },
    /// Ask for one page of a project's issues.
    SearchIssues {
        endpoint: String,
        jql: String,
        fields: Vec<String>,
        max_results: u16,
        next_page_token: Option<String>,
    },
    /// Every page came in: the issues, each key once.
    Finished(Vec<Issue>),
    /// The fetch stopped; the message says why.
    Failed(String),
}

/// Why a request brought no page.
pub enum FetchFailure {
    /// The request could not be sent or no answer came; the error text.
    Transport(String),
    /// The server refused: the status as shown and the body it sent.
    Status(String, String),
    /// The answer could not be read; the error text.
    Malformed(String),
}

/// What came back for the last request.
pub enum FetchEvent {
    /// A page of the project list.
    Projects(ProjectPage),
    /// A page of issues.
    Issues(SearchResponse),
    /// No page.
    Failure(FetchFailure),
}

/// Where a fetch stands.
pub enum FetchPhase {
    /// Listing the projects.
    Projects,
    /// Searching the issues of the project at this position.
    Issues { project: usize },
    /// Over: the result or the error was handed out.
    Done,
}

/// A fetch of every issue of a site in progress.
pub struct FetchRun {
    /// The site the requests go to.
    pub resource: JiraResource,
    pub phase: FetchPhase,
    /// The requests sent so far in the current listing.
    pub pages: usize,
    /// The keys of the projects listed so far.
    pub project_keys: Vec<String>,
    /// The issues fetched so far.
    pub issues: Vec<Issue>,
}

/// The message for a failed request.
pub open spec fn failure_text(listing_projects: bool, f: FetchFailure) -> Seq<char> {
    match f {
        FetchFailure::Transport(e) => if listing_projects {
            "Jiraプロジェクトの取得に失敗しました: "@ + e@
        } else {
            "Jira課題の取得に失敗しました: "@ + e@
        },
        FetchFailure::Status(status, body) => if listing_projects {
            "Jiraプロジェクトの取得に失敗しました ("@ + status@ + "): "@ + body@
        } else {
            "Jira課題の取得に失敗しました ("@ + status@ + "): "@ + body@
        },
        FetchFailure::Malformed(e) => if listing_projects {
            "Jiraプロジェクト情報を解析できません: "@ + e@
        } else {
            "Jiraレスポンスを解析できません: "@ + e@
        },
    }
}

/// The message when the project list takes too many pages.
pub open spec fn project_limit_text() -> Seq<char> {
    "Jiraプロジェクトのページ数が安全上限を超えました。"@
}

/// The message when one project's issues take too many pages.
pub open spec fn issue_limit_text(jql: Seq<char>) -> Seq<char> {
    "Jira課題のページ数が安全上限を超えました。対象JQL: "@ + jql
}

/// Whether no page of the project list follows this one: the server says
/// so, the page is empty, or it reaches the total.
pub open spec fn last_project_page(page: ProjectPage) -> bool {
    page.is_last || page.values@.len() == 0 || page.start_at.saturating_add(
        page.values@.len() as usize,
    ) >= page.total
}

/// Where the next page of the project list starts: after this one, by the
/// page size the server used or the items it sent, whichever is more.
pub open spec fn next_project_start(page: ProjectPage) -> usize {
    let count = page.values@.len() as usize;
    page.start_at.saturating_add(
        if page.max_results >= count {
            page.max_results
        } else {
            count
        },
    )
}

/// Whether no page of issues follows this one.
pub open spec fn last_issue_page(page: SearchResponse) -> bool {
    page.is_last || page.next_page_token is None
}

/// The view of an optional text.
pub open spec fn opt_text(t: Option<String>) -> Option<Seq<char>> {
    match t {
        Some(s) => Some(s@),
        None => None,
    }
}

/// Whether `a` asks for the project-list page starting at `start_at`.
pub open spec fn asks_projects(a: FetchAction, site_id: Seq<char>, start_at: usize) -> bool {
    a matches FetchAction::ListProjects { endpoint, start_at: s, max_results: m } && endpoint@
        == projects_endpoint_text(site_id) && s == start_at && m == PAGE_SIZE
}

/// Whether `a` asks for a page of the issues of the project `key`,
/// continuing after `token` when there is one.
pub open spec fn asks_issues(
    a: FetchAction,
    site_id: Seq<char>,
    key: Seq<char>,
    token: Option<Seq<char>>,
) -> bool {
    a matches FetchAction::SearchIssues { endpoint, jql, fields, max_results, next_page_token }
        && endpoint@ == search_endpoint_text(site_id) && jql@ == project_jql_text(key) && views(
        fields@,
    ) == search_field_names() && max_results == PAGE_SIZE && opt_text(next_page_token) == token
}

/// Whether `after` is `before` with the keys of `page` added in order.
pub open spec fn keys_added(before: Seq<String>, page: Seq<ProjectRef>, after: Seq<String>) -> bool {
    &&& after.len() == before.len() + page.len()
    &&& after.take(before.len() as int) == before
    &&& forall|j: int| 0 <= j < page.len() ==> #[trigger] after[before.len() + j] == page[j].key
}

/// Whether `after` is `before` with the issues of `page` added in order,
/// each read as `Issue::from_api` reads it.
pub open spec fn issues_added(before: Seq<Issue>, page: Seq<ApiIssue>, after: Seq<Issue>) -> bool {
    &&& after.len() == before.len() + page.len()
    &&& after.take(before.len() as int) == before
    &&& forall|j: int| 0 <= j < page.len() ==> from_api_is(#[trigger] after[before.len() + j], page[j])
}

impl FetchRun {
    /// The run is consistent: the page count is within bounds and a project
    /// being searched is one that was listed.
    pub open spec fn wf(&self) -> bool {
        &&& 1 <= self.pages <= MAX_PAGES
        &&& self.phase matches FetchPhase::Issues { project } ==> project < self.project_keys@.len()
    }

    /// Whether the run waits for this kind of answer: a project page or a
    /// failure while listing projects, an issue page or a failure while
    /// searching, nothing once done.
    pub open spec fn accepts(&self, e: FetchEvent) -> bool {
        match self.phase {
            FetchPhase::Projects => e is Projects || e is Failure,
            FetchPhase::Issues { .. } => e is Issues || e is Failure,
            FetchPhase::Done => false,
        }
    }

    /// Whether the run waits for this kind of answer.
    pub fn accepts_event(&self, e: &FetchEvent) -> (r: bool)
        ensures
            r == self.accepts(*e),
    {
        match self.phase {
            FetchPhase::Projects => match e {
                FetchEvent::Issues(_) => false,
                _ => true,
            },
            FetchPhase::Issues { .. } => match e {
                FetchEvent::Projects(_) => false,
                _ => true,
            },
            FetchPhase::Done => false,
        }
    }
}

/// One step of a fetch: from the run `o` and the answer `e` to the run `n`
/// and the next request `a`.
pub open spec fn step_ok(o: FetchRun, e: FetchEvent, n: FetchRun, a: FetchAction) -> bool {
    let site = o.resource.id@;
    &&& n.resource == o.resource
    &&& match e {
        FetchEvent::Failure(f) => {
            &&& n.phase is Done
            &&& n.project_keys@ == o.project_keys@
            &&& n.issues@ == o.issues@
            &&& a matches FetchAction::Failed(m) && m@ == failure_text(o.phase is Projects, f)
        },
        FetchEvent::Projects(page) => {
            &&& keys_added(o.project_keys@, page.values@, n.project_keys@)
            &&& if !last_project_page(page) {
                if o.pages == MAX_PAGES {
                    &&& n.phase is Done
                    &&& n.issues@ == o.issues@
                    &&& a matches FetchAction::Failed(m) && m@ == project_limit_text()
                } else {
                    &&& n.phase is Projects
                    &&& n.pages == o.pages + 1
                    &&& n.issues@ == o.issues@
                    &&& asks_projects(a, site, next_project_start(page))
                }
            } else if n.project_keys@.len() == 0 {
                &&& n.phase is Done
                &&& a matches FetchAction::Finished(r) && r@ == unique_by_key_spec(o.issues@)
            } else {
                &&& n.phase == FetchPhase::Issues { project: 0 }
                &&& n.pages == 1
                &&& n.issues@ == o.issues@
                &&& asks_issues(a, site, n.project_keys@[0]@, None)
            }
        },
        FetchEvent::Issues(page) => {
            let p = o.phase->project;
            let key = o.project_keys@[p as int]@;
            &&& n.project_keys@ == o.project_keys@
            &&& if !last_issue_page(page) {
                if o.pages == MAX_PAGES {
                    &&& n.phase is Done
                    &&& a matches FetchAction::Failed(m) && m@ == issue_limit_text(project_jql_text(key))
                } else {
                    &&& issues_added(o.issues@, page.issues@, n.issues@)
                    &&& n.phase == FetchPhase::Issues { project: p }
                    &&& n.pages == o.pages + 1
                    &&& asks_issues(a, site, key, opt_text(page.next_page_token))
                }
            } else if p + 1 < o.project_keys@.len() {
                &&& issues_added(o.issues@, page.issues@, n.issues@)
                &&& n.phase == FetchPhase::Issues { project: (p + 1) as usize }
                &&& n.pages == 1
                &&& asks_issues(a, site, o.project_keys@[p + 1]@, None)
            } else {
                &&& n.phase is Done
                &&& a matches FetchAction::Finished(r) && exists|c: Seq<Issue>|
                    issues_added(o.issues@, page.issues@, c) && r@ == unique_by_key_spec(c)
            }
        },
    }
}

/// The message for a failed request.
fn failure_message(listing_projects: bool, f: FetchFailure) -> (r: String)
    ensures
        r@ == failure_text(listing_projects, f),
{
    let mut out: Vec<char> = Vec::new();
    match f {
        FetchFailure::Transport(e) => {
            if listing_projects {
                push_str(&mut out, "Jiraプロジェクトの取得に失敗しました: ");
            } else {
                push_str(&mut out, "Jira課題の取得に失敗しました: ");
            }
            push_str(&mut out, e.as_str());
        },
        FetchFailure::Status(status, body) => {
            if listing_projects {
                push_str(&mut out, "Jiraプロジェクトの取得に失敗しました (");
            } else {
                push_str(&mut out, "Jira課題の取得に失敗しました (");
            }
            push_str(&mut out, status.as_str());
            push_str(&mut out, "): ");
            push_str(&mut out, body.as_str());
        },
        FetchFailure::Malformed(e) => {
            if listing_projects {
                push_str(&mut out, "Jiraプロジェクト情報を解析できません: ");
            } else {
                push_str(&mut out, "Jiraレスポンスを解析できません: ");
            }
            push_str(&mut out, e.as_str());
        },
    }
    string_of(&out)
}

/// Adds the keys of a project page to the listed keys.
fn take_keys(keys: &mut Vec<String>, page: &Vec<ProjectRef>)
    ensures
        keys_added(old(keys)@, page@, final(keys)@),
{
    let ghost before = keys@;
    let mut i: usize = 0;
    while i < page.len()
        invariant
            i <= page@.len(),
            keys@.len() == before.len() + i,
            keys@.take(before.len() as int) == before,
            forall|j: int| 0 <= j < i ==> #[trigger] keys@[before.len() + j] == page@[j].key,
        decreases page@.len() - i,
    {
        let k = page[i].key.clone();
        keys.push(k);
        assert(keys@.take(before.len() as int) =~= before);
        i = i + 1;
    }
}

/// Reads the issues of a search page and adds them to the fetched issues.
fn take_issues(issues: &mut Vec<Issue>, page: Vec<ApiIssue>)
    ensures
        issues_added(old(issues)@, page@, final(issues)@),
{
    let ghost before = issues@;
    let ghost p = page@;
    let mut rev = reversed(page);
    let total = rev.len();
    let mut i: usize = 0;
    while rev.len() > 0
        invariant
            p.len() == total,
            i + rev@.len() == p.len(),
            forall|k: int| 0 <= k < rev@.len() ==> #[trigger] rev@[k] == p[p.len() - 1 - k],
            issues@.len() == before.len() + i,
            issues@.take(before.len() as int) == before,
            forall|j: int| 0 <= j < i ==> from_api_is(#[trigger] issues@[before.len() + j], p[j]),
        decreases rev@.len(),
    {
        let ghost rb = rev@;
        let a = rev.pop().unwrap();
        assert(a == p[i as int]);
        let item = Issue::from_api(a);
        issues.push(item);
        assert(issues@.take(before.len() as int) =~= before);
        i = i + 1;
    }
}

/// The request for a page of one project's issues.
fn search_request(site_id: &str, key: &str, token: Option<String>) -> (a: FetchAction)
    ensures
        asks_issues(a, site_id@, key@, opt_text(token)),
{
    FetchAction::SearchIssues {
        endpoint: search_endpoint(site_id),
        jql: project_jql(key),
        fields: search_fields(),
        max_results: PAGE_SIZE,
        next_page_token: token,
    }
}

/// The limit message for one project's issues.
fn issue_limit_message(key: &str) -> (r: String)
    ensures
        r@ == issue_limit_text(project_jql_text(key@)),
{
    let jql = project_jql(key);
    let mut out: Vec<char> = Vec::new();
    push_str(&mut out, "Jira課題のページ数が安全上限を超えました。対象JQL: ");
    push_str(&mut out, jql.as_str());
    string_of(&out)
}

/// Starts fetching every issue of the session's first site: the run and the
/// first request, for the first page of the project list. Fails when the
/// session has no site.
pub fn fetch_all_issues(session: &SavedSession) -> (r: Result<(FetchRun, FetchAction), String>)
    ensures
        session.resources@.len() == 0 <==> r is Err,
        r matches Err(e) ==> e@ == "利用可能なJiraサイトがありません。"@,
        r matches Ok((run, a)) ==> {
            &&& run.wf()
            &&& same_site(run.resource, session.resources@[0])
            &&& run.phase is Projects
            &&& run.pages == 1
            &&& run.project_keys@.len() == 0
            &&& run.issues@.len() == 0
            &&& asks_projects(a, run.resource.id@, 0)
        },
{
    let resource = match primary_resource(session) {
        Ok(x) => x.duplicate(),
        Err(e) => {
            return Err(e);
        },
    };
    let endpoint = projects_endpoint(resource.id.as_str());
    let run = FetchRun {
        resource,
        phase: FetchPhase::Projects,
        pages: 1,
        project_keys: Vec::new(),
        issues: Vec::new(),
    };
    Ok((run, FetchAction::ListProjects { endpoint, start_at: 0, max_results: 100 }))
}

impl FetchRun {
    /// Takes in the answer to the last request and says what to do next.
    pub fn advance(&mut self, event: FetchEvent) -> (a: FetchAction)
        requires
            old(self).wf(),
            old(self).accepts(event),
        ensures
            final(self).wf(),
            step_ok(*old(self), event, *final(self), a),
    {
        let ghost o = *self;
        match event {
            FetchEvent::Failure(f) => {
                let listing_projects = match self.phase {
                    FetchPhase::Projects => true,
                    _ => false,
                };
                self.phase = FetchPhase::Done;
                FetchAction::Failed(failure_message(listing_projects, f))
            },
            FetchEvent::Projects(page) => {
                take_keys(&mut self.project_keys, &page.values);
                let count = page.values.len();
                let last = page.is_last || count == 0 || page.start_at.saturating_add(count)
                    >= page.total;
                if !last {
                    if self.pages == MAX_PAGES {
                        self.phase = FetchPhase::Done;
                        return FetchAction::Failed(
                            "Jiraプロジェクトのページ数が安全上限を超えました。".to_owned(),
                        );
                    }
                    let step = if page.max_results >= count {
                        page.max_results
                    } else {
                        count
                    };
                    let start = page.start_at.saturating_add(step);
                    self.pages = self.pages + 1;
                    FetchAction::ListProjects {
                        endpoint: projects_endpoint(self.resource.id.as_str()),
                        start_at: start,
                        max_results: 100,
                    }
                } else if self.project_keys.len() == 0 {
                    self.phase = FetchPhase::Done;
                    let mut all: Vec<Issue> = Vec::new();
                    std::mem::swap(&mut all, &mut self.issues);
                    FetchAction::Finished(unique_by_key(all))
                } else {
                    self.phase = FetchPhase::Issues { project: 0 };
                    self.pages = 1;
                    search_request(self.resource.id.as_str(), self.project_keys[0].as_str(), None)
                }
            },
            FetchEvent::Issues(page) => {
                let p = match self.phase {
                    FetchPhase::Issues { project } => project,
                    _ => 0,
                };
                assert(p < self.project_keys@.len());
                let SearchResponse { issues, next_page_token, is_last } = page;
                let last = is_last || next_page_token.is_none();
                if !last && self.pages == MAX_PAGES {
                    self.phase = FetchPhase::Done;
                    return FetchAction::Failed(issue_limit_message(self.project_keys[p].as_str()));
                }
                take_issues(&mut self.issues, issues);
                if !last {
                    self.pages = self.pages + 1;
                    search_request(
                        self.resource.id.as_str(),
                        self.project_keys[p].as_str(),
                        next_page_token,
                    )
                } else if p < self.project_keys.len() - 1 {
                    self.phase = FetchPhase::Issues { project: p + 1 };
                    self.pages = 1;
                    search_request(
                        self.resource.id.as_str(),
                        self.project_keys[p + 1].as_str(),
                        None,
                    )
                } else {
                    self.phase = FetchPhase::Done;
                    let ghost c = self.issues@;
                    let mut all: Vec<Issue> = Vec::new();
                    std::mem::swap(&mut all, &mut self.issues);
                    let r = unique_by_key(all);
                    assert(issues_added(o.issues@, page.issues@, c));
                    FetchAction::Finished(r)
                }
            },
        }
    }
}

/// Whether a failed fetch calls for signing in again: the server refused the
/// access token as unauthorized.
pub fn sign_in_again(message: &str) -> (r: bool)
    ensures
        r == crate::text::contains_seq(message@, "401 Unauthorized"@),
{
    crate::text::str_contains(message, "401 Unauthorized")
}

} // verus!
