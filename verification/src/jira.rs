//! Jira Cloud REST API: the data the search endpoints return, turning it into
//! issues, and planning the requests the app sends.

use vstd::prelude::*;
use crate::adf::{adf_text, adf_to_text, AdfNode};
use crate::duration::{duration_text, format_duration};
use crate::issue::{seconds_or_zero, Issue};
use crate::text::{chars_of, string_of};

verus! {

/// A Jira site the user authorized.
#[derive(Clone, Debug)]
pub struct JiraResource {
    pub id: String,
    pub name: String,
    pub url: String,
    pub scopes: Vec<String>,
}

/// Whether two values describe the same site with the same scopes.
pub open spec fn same_site(a: JiraResource, b: JiraResource) -> bool {
    &&& a.id == b.id
    &&& a.name == b.name
    &&& a.url == b.url
    &&& a.scopes@ == b.scopes@
}

impl JiraResource {
    /// A copy of the site.
    pub fn duplicate(&self) -> (r: JiraResource)
        ensures
            same_site(r, *self),
    {
        let mut scopes: Vec<String> = Vec::new();
        let mut i: usize = 0;
        while i < self.scopes.len()
            invariant
                i <= self.scopes@.len(),
                scopes@ == self.scopes@.take(i as int),
            decreases self.scopes@.len() - i,
        {
            scopes.push(self.scopes[i].clone());
            i = i + 1;
            assert(scopes@ =~= self.scopes@.take(i as int));
        }
        assert(scopes@ =~= self.scopes@);
        JiraResource {
            id: self.id.clone(),
            name: self.name.clone(),
            url: self.url.clone(),
            scopes,
        }
    }
}

/// OAuth tokens.
#[derive(Clone, Debug)]
pub struct TokenSet {
    pub access_token: String,
    pub refresh_token: Option<String>,
    pub expires_in: u64,
    pub scope: String,
}

/// The stored sign-in: tokens and the sites they open.
#[derive(Clone, Debug)]
pub struct SavedSession {
    pub tokens: TokenSet,
    pub resources: Vec<JiraResource>,
}

/// A user, status or issue type as the API names it.
#[derive(Clone, Debug)]
pub struct NamedValue {
    pub display_name: Option<String>,
    pub name: Option<String>,
}

/// The parent reference of an issue.
#[derive(Clone, Debug)]
pub struct ParentIssue {
    pub key: String,
}

/// One comment.
pub struct ApiComment {
    pub body: AdfNode,
}

/// The comments of an issue.
pub struct CommentPage {
    pub comments: Vec<ApiComment>,
}

/// The fields the search asks for.
pub struct ApiFields {
    pub summary: String,
    pub status: Option<NamedValue>,
    pub issuetype: Option<NamedValue>,
    pub assignee: Option<NamedValue>,
    pub duedate: Option<String>,
    pub timeoriginalestimate: Option<i64>,
    pub timespent: Option<i64>,
    pub parent: Option<ParentIssue>,
    pub description: Option<AdfNode>,
    pub comment: Option<CommentPage>,
}

/// One issue of a search page.
pub struct ApiIssue {
    pub key: String,
    pub fields: ApiFields,
}

/// One page of the enhanced JQL search.
pub struct SearchResponse {
    pub issues: Vec<ApiIssue>,
    pub next_page_token: Option<String>,
    pub is_last: bool,
}

/// A project reference.
pub struct ProjectRef {
    pub key: String,
}

/// One page of the project search.
pub struct ProjectPage {
    pub values: Vec<ProjectRef>,
    pub start_at: usize,
    pub max_results: usize,
    pub total: usize,
    pub is_last: bool,
}

/// The text shown for a named value: its display name, else its name, else
/// `未設定` (not set).
pub open spec fn named_text(value: Option<NamedValue>) -> Seq<char> {
    match value {
        Some(v) => match v.display_name {
            Some(d) => d@,
            None => match v.name {
                Some(n) => n@,
                None => "未設定"@,
            },
        },
        None => "未設定"@,
    }
}

/// The text shown for a named value.
pub fn named_value(value: Option<NamedValue>) -> (r: String)
    ensures
        r@ == named_text(value),
{
    match value {
        Some(v) => match v.display_name {
            Some(d) => d,
            None => match v.name {
                Some(n) => n,
                None => "未設定".to_owned(),
            },
        },
        None => "未設定".to_owned(),
    }
}

/// A project key escaped for a JQL string literal: backslashes doubled and
/// double quotes preceded by a backslash.
pub open spec fn jql_escape(s: Seq<char>) -> Seq<char>
    decreases s.len(),
{
    if s.len() == 0 {
        seq![]
    } else {
        jql_escape(s.drop_last()) + if s.last() == '\\' {
            seq!['\\', '\\']
        } else if s.last() == '"' {
            seq!['\\', '"']
        } else {
            seq![s.last()]
        }
    }
}

/// The JQL that lists one project's issues, newest update first.
pub open spec fn project_jql_text(key: Seq<char>) -> Seq<char> {
    "project = \""@ + jql_escape(key) + "\" ORDER BY updated DESC"@
}

pub(crate) fn push_str(out: &mut Vec<char>, s: &str)
    ensures
        final(out)@ == old(out)@ + s@,
{
    let cs = chars_of(s);
    let mut i: usize = 0;
    while i < cs.len()
        invariant
            i <= cs.len(),
            out@ == old(out)@ + cs@.take(i as int),
        decreases cs.len() - i,
    {
        out.push(cs[i]);
        i = i + 1;
        assert(out@ =~= old(out)@ + cs@.take(i as int));
    }
    assert(cs@.take(i as int) =~= cs@);
}

/// The JQL that lists one project's issues.
pub fn project_jql(project_key: &str) -> (r: String)
    ensures
        r@ == project_jql_text(project_key@),
{
    let k = chars_of(project_key);
    let mut out: Vec<char> = Vec::new();
    push_str(&mut out, "project = \"");
    let ghost head = out@;
    let mut i: usize = 0;
    while i < k.len()
        invariant
            i <= k.len(),
            out@ == head + jql_escape(k@.take(i as int)),
        decreases k.len() - i,
    {
        let c = k[i];
        assert(k@.take(i + 1).drop_last() =~= k@.take(i as int));
        if c == '\\' {
            out.push('\\');
            out.push('\\');
        } else if c == '"' {
            out.push('\\');
            out.push('"');
        } else {
            out.push(c);
        }
        i = i + 1;
        assert(out@ =~= head + jql_escape(k@.take(i as int)));
    }
    assert(k@.take(i as int) =~= k@);
    push_str(&mut out, "\" ORDER BY updated DESC");
    string_of(&out)
}

/// Reads an escaped JQL literal body back: a backslash takes the next
/// character literally; a bare quote cannot occur.
pub open spec fn jql_unescape(s: Seq<char>) -> Option<Seq<char>>
    decreases s.len(),
{
    if s.len() == 0 {
        Some(seq![])
    } else if s[0] == '\\' {
        if s.len() >= 2 {
            match jql_unescape(s.subrange(2, s.len() as int)) {
                Some(rest) => Some(seq![s[1]] + rest),
                None => None,
            }
        } else {
            None
        }
    } else if s[0] == '"' {
        None
    } else {
        match jql_unescape(s.drop_first()) {
            Some(rest) => Some(seq![s[0]] + rest),
            None => None,
        }
    }
}

proof fn lemma_unescape_append(a: Seq<char>, b: Seq<char>, x: Seq<char>, y: Seq<char>)
    requires
        jql_unescape(a) == Some(x),
        jql_unescape(b) == Some(y),
    ensures
        jql_unescape(a + b) == Some(x + y),
    decreases a.len(),
{
    if a.len() == 0 {
        assert(a + b =~= b);
        assert(x =~= Seq::<char>::empty());
        assert(x + y =~= y);
    } else if a[0] == '\\' {
        let ar = a.subrange(2, a.len() as int);
        let xr = jql_unescape(ar)->0;
        lemma_unescape_append(ar, b, xr, y);
        assert((a + b).subrange(2, (a + b).len() as int) =~= ar + b);
        assert(x =~= seq![a[1]] + xr);
        assert(x + y =~= seq![a[1]] + (xr + y));
    } else {
        let ar = a.drop_first();
        let xr = jql_unescape(ar)->0;
        lemma_unescape_append(ar, b, xr, y);
        assert((a + b).drop_first() =~= ar + b);
        assert(x =~= seq![a[0]] + xr);
        assert(x + y =~= seq![a[0]] + (xr + y));
    }
}

/// Escaping can be undone: the escaped text holds no bare quote, so the key
/// stays inside the JQL string literal and reads back unchanged.
pub proof fn law_jql_escape_roundtrip(s: Seq<char>)
    ensures
        jql_unescape(jql_escape(s)) == Some(s),
    decreases s.len(),
{
    if s.len() > 0 {
        law_jql_escape_roundtrip(s.drop_last());
        let c = s.last();
        let piece = if c == '\\' {
            seq!['\\', '\\']
        } else if c == '"' {
            seq!['\\', '"']
        } else {
            seq![c]
        };
        if c == '\\' || c == '"' {
            assert(piece.subrange(2, 2) =~= Seq::<char>::empty());
            assert(jql_unescape(Seq::<char>::empty()) == Some(Seq::<char>::empty()));
            assert(jql_unescape(piece) == Some(seq![c] + Seq::<char>::empty()));
        } else {
            assert(piece.drop_first() =~= Seq::<char>::empty());
            assert(jql_unescape(piece) == Some(seq![c] + Seq::<char>::empty()));
        }
        assert(seq![c] + Seq::<char>::empty() =~= seq![c]);
        lemma_unescape_append(jql_escape(s.drop_last()), piece, s.drop_last(), seq![c]);
        assert(s.drop_last() + seq![c] =~= s);
    } else {
        assert(jql_escape(s) =~= Seq::<char>::empty());
    }
}


/// The first authorized site, which all requests go to.
pub fn primary_resource(session: &SavedSession) -> (r: Result<&JiraResource, String>)
    ensures
        session.resources@.len() > 0 ==> (r matches Ok(x) && *x == session.resources@[0]),
        session.resources@.len() == 0 ==> (r matches Err(e) && e@ == "利用可能なJiraサイトがありません。"@),
{
    if session.resources.len() > 0 {
        Ok(&session.resources[0])
    } else {
        Err("利用可能なJiraサイトがありません。".to_owned())
    }
}

/// The REST address of an issue on a site.
pub open spec fn issue_endpoint_text(site_id: Seq<char>, issue_key: Seq<char>) -> Seq<char> {
    "https://api.atlassian.com/ex/jira/"@ + site_id + "/rest/api/3/issue/"@ + issue_key
}

/// The REST address of an issue on a site.
pub fn issue_endpoint(resource: &JiraResource, issue_key: &str) -> (r: String)
    ensures
        r@ == issue_endpoint_text(resource.id@, issue_key@),
{
    let mut out: Vec<char> = Vec::new();
    push_str(&mut out, "https://api.atlassian.com/ex/jira/");
    push_str(&mut out, resource.id.as_str());
    push_str(&mut out, "/rest/api/3/issue/");
    push_str(&mut out, issue_key);
    string_of(&out)
}

/// Texts joined with line breaks between them.
pub open spec fn join_lines(parts: Seq<Seq<char>>) -> Seq<char>
    decreases parts.len(),
{
    if parts.len() == 0 {
        seq![]
    } else if parts.len() == 1 {
        parts[0]
    } else {
        join_lines(parts.drop_last()) + seq!['\n'] + parts.last()
    }
}

/// The non-empty texts of a list of comments, in order.
pub open spec fn comment_texts(cs: Seq<ApiComment>) -> Seq<Seq<char>>
    decreases cs.len(),
{
    if cs.len() == 0 {
        seq![]
    } else {
        let t = adf_text(cs.last().body);
        if t.len() > 0 {
            comment_texts(cs.drop_last()).push(t)
        } else {
            comment_texts(cs.drop_last())
        }
    }
}

/// Whether `r` is the issue read from the API issue `a`: named fields shown
/// by name, missing texts empty, missing times zero, description and
/// comments as searchable text (non-empty comments one per line), done when
/// its status is `完了`, and the remaining time starting at the estimate.
pub open spec fn from_api_is(r: Issue, a: ApiIssue) -> bool {
    let f = a.fields;
    &&& r.key@ == a.key@
    &&& r.summary@ == f.summary@
    &&& r.status@ == named_text(f.status)
    &&& r.status_done == (named_text(f.status) == "完了"@)
    &&& r.issue_type@ == named_text(f.issuetype)
    &&& r.assignee@ == named_text(f.assignee)
    &&& r.due@ == match f.duedate {
        Some(d) => d@,
        None => seq![],
    }
    &&& r.estimate@ == duration_text(f.timeoriginalestimate)
    &&& r.spent@ == duration_text(f.timespent)
    &&& r.remaining@ == duration_text(f.timeoriginalestimate)
    &&& r.estimate_seconds == match f.timeoriginalestimate {
        Some(x) => x,
        None => 0,
    }
    &&& r.spent_seconds == match f.timespent {
        Some(x) => x,
        None => 0,
    }
    &&& r.remaining_seconds == r.estimate_seconds
    &&& r.parent@ == match f.parent {
        Some(p) => p.key@,
        None => seq![],
    }
    &&& r.description@ == match f.description {
        Some(d) => adf_text(d),
        None => seq![],
    }
    &&& r.comments@ == match f.comment {
        Some(page) => join_lines(comment_texts(page.comments@)),
        None => seq![],
    }
    &&& r.custom_values@.len() == 0
}

fn join_comment_texts(cs: &Vec<ApiComment>) -> (r: String)
    ensures
        r@ == join_lines(comment_texts(cs@)),
{
    let mut out: Vec<char> = Vec::new();
    let mut count: usize = 0;
    let mut i: usize = 0;
    while i < cs.len()
        invariant
            i <= cs@.len(),
            count <= i,
            count == comment_texts(cs@.take(i as int)).len(),
            out@ == join_lines(comment_texts(cs@.take(i as int))),
        decreases cs@.len() - i,
    {
        let t = adf_to_text(&cs[i].body);
        assert(cs@.take(i + 1).drop_last() =~= cs@.take(i as int));
        assert(cs@.take(i + 1).last() == cs@[i as int]);
        let tc = chars_of(t.as_str());
        if tc.len() > 0 {
            let ghost prev = comment_texts(cs@.take(i as int));
            if count > 0 {
                out.push('\n');
            }
            let ghost mid = out@;
            let mut q: usize = 0;
            while q < tc.len()
                invariant
                    q <= tc@.len(),
                    out@ == mid + tc@.take(q as int),
                decreases tc@.len() - q,
            {
                out.push(tc[q]);
                q = q + 1;
                assert(out@ =~= mid + tc@.take(q as int));
            }
            assert(tc@.take(q as int) =~= tc@);
            proof {
                let next = prev.push(tc@);
                assert(next.drop_last() =~= prev);
                if count == 0 {
                    assert(prev.len() == 0);
                    assert(join_lines(prev) =~= Seq::<char>::empty());
                    assert(out@ =~= tc@);
                    assert(join_lines(next) == next[0]);
                } else {
                    assert(out@ =~= join_lines(prev) + seq!['\n'] + tc@);
                }
            }
            count = count + 1;
        }
        i = i + 1;
    }
    assert(cs@.take(i as int) =~= cs@);
    string_of(&out)
}

impl Issue {
    /// Reads an issue from a search result.
    pub fn from_api(issue: ApiIssue) -> (r: Issue)
        ensures
            from_api_is(r, issue),
    {
        let ghost a = issue;
        let fields = issue.fields;
        let comments = match &fields.comment {
            Some(page) => join_comment_texts(&page.comments),
            None => String::new(),
        };
        let description = match &fields.description {
            Some(d) => adf_to_text(d),
            None => String::new(),
        };
        let status = named_value(fields.status);
        let done = crate::text::str_eq(status.as_str(), "完了");
        let estimate = format_duration(fields.timeoriginalestimate);
        let remaining = format_duration(fields.timeoriginalestimate);
        let estimate_seconds = match fields.timeoriginalestimate {
            Some(x) => x,
            None => 0,
        };
        Issue {
            key: issue.key,
            summary: fields.summary,
            status,
            status_done: done,
            issue_type: named_value(fields.issuetype),
            assignee: named_value(fields.assignee),
            due: match fields.duedate {
                Some(d) => d,
                None => String::new(),
            },
            estimate,
            spent: format_duration(fields.timespent),
            remaining,
            estimate_seconds,
            spent_seconds: match fields.timespent {
                Some(x) => x,
                None => 0,
            },
            remaining_seconds: estimate_seconds,
            parent: match fields.parent {
                Some(p) => p.key,
                None => String::new(),
            },
            description,
            comments,
            custom_values: Vec::new(),
        }
    }
}

} // verus!
