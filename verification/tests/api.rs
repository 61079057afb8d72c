use jira_lens::adf::{adf_to_text, text_to_adf, AdfNode};
use jira_lens::duration::{format_duration, jira_duration};
use jira_lens::issue::Issue;
use jira_lens::jira::{
    project_jql, ApiFields, ApiIssue, CommentPage, NamedValue, ParentIssue, ProjectPage, ProjectRef,
    SearchResponse,
};
use jira_lens::oauth::{build_authorization_url, validate_loopback_redirect, OAuthConfig};
use std::collections::HashMap;

fn text(t: &str) -> AdfNode {
    AdfNode { node_type: Some("text".into()), text: Some(t.into()), content: None, version: None }
}

fn node(kind: &str, content: Vec<AdfNode>) -> AdfNode {
    AdfNode { node_type: Some(kind.into()), text: None, content: Some(content), version: None }
}

#[test]
fn converts_adf_to_searchable_text() {
    let mut adf = node(
        "doc",
        vec![
            node("paragraph", vec![text("最初の行")]),
            node("paragraph", vec![text("次の行")]),
        ],
    );
    adf.version = Some(1);
    assert_eq!(adf_to_text(&adf), "最初の行\n次の行");
    assert_eq!(adf_to_text(&text_to_adf("最初の行\n次の行")), "最初の行\n次の行");
}

#[test]
fn formats_jira_seconds() {
    assert_eq!(format_duration(Some(5 * 3600 + 30 * 60)), "5h 30m");
    assert_eq!(format_duration(None), "0h");
    assert_eq!(jira_duration(90), "2m");
}

fn named(display_name: Option<&str>, name: Option<&str>) -> Option<NamedValue> {
    Some(NamedValue {
        display_name: display_name.map(|s| s.to_owned()),
        name: name.map(|s| s.to_owned()),
    })
}

#[test]
fn parses_enhanced_search_page_and_issue_fields() {
    let mut description = node("doc", vec![]);
    description.version = Some(1);
    let page = SearchResponse {
        issues: vec![ApiIssue {
            key: "REAL-1".into(),
            fields: ApiFields {
                summary: "実課題".into(),
                status: named(None, Some("進行中")),
                issuetype: named(None, Some("タスク")),
                assignee: named(Some("Hiroshi"), None),
                duedate: None,
                timeoriginalestimate: Some(5400),
                timespent: Some(1800),
                parent: Some(ParentIssue { key: "REAL-0".into() }),
                description: Some(description),
                comment: Some(CommentPage { comments: vec![] }),
            },
        }],
        next_page_token: Some("next-token".into()),
        is_last: false,
    };
    assert_eq!(page.next_page_token.as_deref(), Some("next-token"));
    let item = Issue::from_api(page.issues.into_iter().next().unwrap());
    assert_eq!(item.key, "REAL-1");
    assert_eq!(item.parent, "REAL-0");
    assert_eq!(item.issue_type, "タスク");
    assert_eq!(item.estimate, "1h 30m");
}

#[test]
fn builds_bounded_project_jql() {
    assert_eq!(project_jql("TEAM"), "project = \"TEAM\" ORDER BY updated DESC");
    assert_eq!(project_jql("A\\\"B"), "project = \"A\\\\\\\"B\" ORDER BY updated DESC");
}

#[test]
fn parses_project_search_page() {
    let page = ProjectPage {
        values: vec![ProjectRef { key: "APP".into() }, ProjectRef { key: "OPS".into() }],
        start_at: 0,
        max_results: 50,
        total: 2,
        is_last: true,
    };
    assert_eq!(page.values.len(), 2);
    assert_eq!(page.values[1].key, "OPS");
    assert!(page.is_last);
}

fn config() -> OAuthConfig {
    OAuthConfig {
        client_id: "client-id".into(),
        client_secret: "never-in-url".into(),
        redirect_uri: "http://127.0.0.1:53682/callback".into(),
    }
}

#[test]
fn authorization_url_contains_required_parameters_without_secret() {
    let address = build_authorization_url(&config(), "csrf-state").ok().unwrap();
    let url = url::Url::parse(&address).unwrap();
    let params: HashMap<_, _> = url.query_pairs().collect();
    assert_eq!(params.get("audience").unwrap(), "api.atlassian.com");
    assert_eq!(params.get("state").unwrap(), "csrf-state");
    assert!(params.get("scope").unwrap().contains("offline_access"));
    assert!(!url.as_str().contains("never-in-url"));
}

#[test]
fn only_loopback_redirects_are_accepted() {
    assert!(validate_loopback_redirect("http://localhost:53682/callback").is_ok());
    assert!(validate_loopback_redirect("http://127.0.0.1:53682/callback").is_ok());
    assert!(validate_loopback_redirect("https://example.com/callback").is_err());
}
