use jira_lens::adf::AdfNode;
use jira_lens::jira::{ApiComment, CommentPage, NamedValue};
use jira_lens::fetch::{
    fetch_all_issues, unique_by_key, FetchAction, FetchEvent, FetchFailure, FetchPhase, MAX_PAGES,
};
use jira_lens::issue::Issue;
use jira_lens::demo::demo_issues;
use jira_lens::jira::{
    ApiFields, ApiIssue, JiraResource, ProjectPage, ProjectRef, SavedSession, SearchResponse, TokenSet,
};
use jira_lens::requests::{add_worklog, send_failure_message, update_issue, worklog_entry, SendFailure};

fn session(with_site: bool) -> SavedSession {
    SavedSession {
        tokens: TokenSet {
            access_token: "token-1".into(),
            refresh_token: None,
            expires_in: 3600,
            scope: "read:jira-work".into(),
        },
        resources: if with_site {
            vec![JiraResource {
                id: "cloud-9".into(),
                name: "Site".into(),
                url: "https://example.atlassian.net/".into(),
                scopes: vec![],
            }]
        } else {
            vec![]
        },
    }
}

fn api_issue(key: &str, summary: &str) -> ApiIssue {
    ApiIssue {
        key: key.into(),
        fields: ApiFields {
            summary: summary.into(),
            status: None,
            issuetype: None,
            assignee: None,
            duedate: None,
            timeoriginalestimate: None,
            timespent: None,
            parent: None,
            description: None,
            comment: None,
        },
    }
}

fn project_page(keys: &[&str], start_at: usize, max_results: usize, total: usize, is_last: bool) -> ProjectPage {
    ProjectPage {
        values: keys.iter().map(|k| ProjectRef { key: (*k).into() }).collect(),
        start_at,
        max_results,
        total,
        is_last,
    }
}

#[test]
fn fetch_needs_a_site() {
    match fetch_all_issues(&session(false)) {
        Err(message) => assert_eq!(message, "利用可能なJiraサイトがありません。"),
        Ok(_) => panic!("a session without sites cannot fetch"),
    }
}

#[test]
fn fetch_lists_projects_then_searches_each_and_drops_repeated_keys() {
    let (mut run, action) = fetch_all_issues(&session(true)).ok().unwrap();
    match action {
        FetchAction::ListProjects { endpoint, start_at, max_results } => {
            assert_eq!(endpoint, "https://api.atlassian.com/ex/jira/cloud-9/rest/api/3/project/search");
            assert_eq!(start_at, 0);
            assert_eq!(max_results, 100);
        }
        _ => panic!("the first request lists projects"),
    }
    // A full page that is not the last one: the next starts after it.
    let action = run.advance(FetchEvent::Projects(project_page(&["APP"], 0, 1, 2, false)));
    match action {
        FetchAction::ListProjects { start_at, .. } => assert_eq!(start_at, 1),
        _ => panic!("the list goes on"),
    }
    let action = run.advance(FetchEvent::Projects(project_page(&["OPS"], 1, 1, 2, false)));
    match action {
        FetchAction::SearchIssues { endpoint, jql, fields, max_results, next_page_token } => {
            assert_eq!(endpoint, "https://api.atlassian.com/ex/jira/cloud-9/rest/api/3/search/jql");
            assert_eq!(jql, "project = \"APP\" ORDER BY updated DESC");
            assert_eq!(fields.len(), 10);
            assert_eq!(fields[0], "summary");
            assert_eq!(max_results, 100);
            assert!(next_page_token.is_none());
        }
        _ => panic!("the issues of the first project come next"),
    }
    let action = run.advance(FetchEvent::Issues(SearchResponse {
        issues: vec![api_issue("APP-1", "first"), api_issue("APP-2", "second")],
        next_page_token: Some("t2".into()),
        is_last: false,
    }));
    match action {
        FetchAction::SearchIssues { jql, next_page_token, .. } => {
            assert_eq!(jql, "project = \"APP\" ORDER BY updated DESC");
            assert_eq!(next_page_token.as_deref(), Some("t2"));
        }
        _ => panic!("the same project's next page"),
    }
    let action = run.advance(FetchEvent::Issues(SearchResponse {
        issues: vec![],
        next_page_token: None,
        is_last: false,
    }));
    match action {
        FetchAction::SearchIssues { jql, next_page_token, .. } => {
            assert_eq!(jql, "project = \"OPS\" ORDER BY updated DESC");
            assert!(next_page_token.is_none());
        }
        _ => panic!("the next project"),
    }
    let action = run.advance(FetchEvent::Issues(SearchResponse {
        issues: vec![api_issue("APP-1", "again"), api_issue("OPS-1", "ops")],
        next_page_token: None,
        is_last: true,
    }));
    match action {
        FetchAction::Finished(issues) => {
            let keys: Vec<&str> = issues.iter().map(|i| i.key.as_str()).collect();
            assert_eq!(keys, ["APP-1", "APP-2", "OPS-1"]);
            assert_eq!(issues[0].summary, "first");
        }
        _ => panic!("every project was searched"),
    }
    assert!(matches!(run.phase, FetchPhase::Done));
}

#[test]
fn fetch_with_no_projects_finishes_empty() {
    let (mut run, _) = fetch_all_issues(&session(true)).ok().unwrap();
    match run.advance(FetchEvent::Projects(project_page(&[], 0, 50, 0, false))) {
        FetchAction::Finished(issues) => assert!(issues.is_empty()),
        _ => panic!("no projects, nothing to search"),
    }
}

#[test]
fn fetch_failures_name_the_listing() {
    let (mut run, _) = fetch_all_issues(&session(true)).ok().unwrap();
    match run.advance(FetchEvent::Failure(FetchFailure::Transport("timeout".into()))) {
        FetchAction::Failed(m) => assert_eq!(m, "Jiraプロジェクトの取得に失敗しました: timeout"),
        _ => panic!(),
    }
    let (mut run, _) = fetch_all_issues(&session(true)).ok().unwrap();
    match run.advance(FetchEvent::Failure(FetchFailure::Status("401 Unauthorized".into(), "no".into()))) {
        FetchAction::Failed(m) => assert_eq!(m, "Jiraプロジェクトの取得に失敗しました (401 Unauthorized): no"),
        _ => panic!(),
    }
    let (mut run, _) = fetch_all_issues(&session(true)).ok().unwrap();
    match run.advance(FetchEvent::Failure(FetchFailure::Malformed("eof".into()))) {
        FetchAction::Failed(m) => assert_eq!(m, "Jiraプロジェクト情報を解析できません: eof"),
        _ => panic!(),
    }
    let (mut run, _) = fetch_all_issues(&session(true)).ok().unwrap();
    run.advance(FetchEvent::Projects(project_page(&["APP"], 0, 50, 1, true)));
    match run.advance(FetchEvent::Failure(FetchFailure::Malformed("eof".into()))) {
        FetchAction::Failed(m) => assert_eq!(m, "Jiraレスポンスを解析できません: eof"),
        _ => panic!(),
    }
    let (mut run, _) = fetch_all_issues(&session(true)).ok().unwrap();
    run.advance(FetchEvent::Projects(project_page(&["APP"], 0, 50, 1, true)));
    match run.advance(FetchEvent::Failure(FetchFailure::Status("500 Internal Server Error".into(), "x".into()))) {
        FetchAction::Failed(m) => assert_eq!(m, "Jira課題の取得に失敗しました (500 Internal Server Error): x"),
        _ => panic!(),
    }
    let (mut run, _) = fetch_all_issues(&session(true)).ok().unwrap();
    run.advance(FetchEvent::Projects(project_page(&["APP"], 0, 50, 1, true)));
    match run.advance(FetchEvent::Failure(FetchFailure::Transport("reset".into()))) {
        FetchAction::Failed(m) => assert_eq!(m, "Jira課題の取得に失敗しました: reset"),
        _ => panic!(),
    }
}

#[test]
fn fetch_gives_up_after_the_page_limit() {
    let (mut run, _) = fetch_all_issues(&session(true)).ok().unwrap();
    let mut last = None;
    for page in 0..MAX_PAGES {
        let action = run.advance(FetchEvent::Projects(project_page(&["P"], page, 1, usize::MAX, false)));
        if let FetchAction::Failed(m) = action {
            last = Some((page, m));
            break;
        }
    }
    let (page, message) = last.unwrap();
    assert_eq!(page, MAX_PAGES - 1);
    assert_eq!(message, "Jiraプロジェクトのページ数が安全上限を超えました。");

    let (mut run, _) = fetch_all_issues(&session(true)).ok().unwrap();
    run.advance(FetchEvent::Projects(project_page(&["A\"B"], 0, 50, 1, true)));
    let mut message = String::new();
    for _ in 0..MAX_PAGES {
        let action = run.advance(FetchEvent::Issues(SearchResponse {
            issues: vec![],
            next_page_token: Some("more".into()),
            is_last: false,
        }));
        if let FetchAction::Failed(m) = action {
            message = m;
            break;
        }
    }
    assert_eq!(message, "Jira課題のページ数が安全上限を超えました。対象JQL: project = \"A\\\"B\" ORDER BY updated DESC");
}

#[test]
fn unique_by_key_keeps_the_first_of_each_key() {
    let mut items = demo_issues();
    let mut copy = items[1].clone();
    copy.summary = "later copy".into();
    items.push(copy);
    let unique = unique_by_key(items);
    assert_eq!(unique.len(), 7);
    assert_eq!(unique[1].summary, "親子ツリー表示");
    let keys: Vec<&str> = unique.iter().map(|i| i.key.as_str()).collect();
    assert_eq!(keys, ["APP-100", "APP-101", "APP-102", "APP-105", "APP-103", "APP-104", "OPS-20"]);
}

#[test]
fn update_plans_the_edit() {
    assert!(update_issue(&session(false), "APP-1", "x", "", "", 0).is_err());
    let update = update_issue(&session(true), "APP-1", "  新しい題  ", "一行目\n二行目", "  ", 90)
        .ok()
        .unwrap();
    assert_eq!(update.action, "Jira課題の更新");
    assert_eq!(update.endpoint, "https://api.atlassian.com/ex/jira/cloud-9/rest/api/3/issue/APP-1");
    assert_eq!(update.access_token, "token-1");
    assert_eq!(update.summary, "新しい題");
    assert!(update.due.is_none());
    assert_eq!(update.original_estimate, "2m");
    assert_eq!(update.description.content.as_ref().unwrap().len(), 2);
    let dated = update_issue(&session(true), "APP-1", "t", "", " 2026-01-31 ", 0).ok().unwrap();
    assert_eq!(dated.due.as_deref(), Some("2026-01-31"));
    assert_eq!(dated.original_estimate, "0m");
}

#[test]
fn worklog_checks_length_start_and_site() {
    match add_worklog(&session(true), "APP-1", "2026-01-02", "09:30", 0) {
        Err(m) => assert_eq!(m, "作業時間は1〜1440分で指定してください。"),
        Ok(_) => panic!(),
    }
    match add_worklog(&session(true), "APP-1", "2026-01-02", "09:30", 1441) {
        Err(m) => assert_eq!(m, "作業時間は1〜1440分で指定してください。"),
        Ok(_) => panic!(),
    }
    match add_worklog(&session(true), "APP-1", "2026/01/02", "09:30", 30) {
        Err(m) => assert_eq!(m, "開始日時は YYYY-MM-DD と HH:MM の形式で入力してください。"),
        Ok(_) => panic!(),
    }
    let entry = add_worklog(&session(true), "APP-1", " 2026-01-02 ", " 09:30 ", 45).ok().unwrap();
    assert_eq!(entry.endpoint, "https://api.atlassian.com/ex/jira/cloud-9/rest/api/3/issue/APP-1/worklog");
    assert_eq!(entry.time_spent_seconds, 2700);
    assert_eq!(entry.action, "Jira作業時間の登録");
    assert!(entry.started.starts_with("2026-01-02T09:30:00.000"));
    assert_eq!(entry.started.len(), 28);
    assert!(entry.started[23..24] == *"+" || entry.started[23..24] == *"-");
    assert!(entry.started[24..].chars().all(|c| c.is_ascii_digit()));
    match add_worklog(&session(false), "APP-1", "2026-01-02", "09:30", 45) {
        Err(m) => assert_eq!(m, "利用可能なJiraサイトがありません。"),
        Ok(_) => panic!(),
    }
}

#[test]
fn worklog_entry_needs_a_local_start() {
    match worklog_entry(&session(true), "APP-1", None, 10) {
        Err(m) => assert_eq!(m, "指定された開始日時をローカル時刻へ変換できません。"),
        Ok(_) => panic!(),
    }
    let e = worklog_entry(&session(true), "K-1", Some("2026-01-02T09:30:00.000+0900".into()), 1440)
        .ok()
        .unwrap();
    assert_eq!(e.started, "2026-01-02T09:30:00.000+0900");
    assert_eq!(e.time_spent_seconds, 86400);
}

#[test]
fn send_failures_name_the_action() {
    assert_eq!(
        send_failure_message("Jira課題の更新", SendFailure::Transport("timeout".into())),
        "Jira課題の更新に失敗しました: timeout"
    );
    assert_eq!(
        send_failure_message("Jira作業時間の登録", SendFailure::Status("400 Bad Request".into(), "{}".into())),
        "Jira作業時間の登録に失敗しました (400 Bad Request): {}"
    );
}

#[test]
fn issues_read_from_the_api_join_comments() {
    let paragraph = |t: &str| AdfNode {
        node_type: Some("paragraph".into()),
        text: None,
        content: Some(vec![AdfNode { node_type: Some("text".into()), text: Some(t.into()), content: None, version: None }]),
        version: None,
    };
    let mut a = api_issue("K-1", "s");
    a.fields.status = Some(NamedValue { display_name: None, name: Some("完了".into()) });
    a.fields.comment = Some(CommentPage {
        comments: vec![
            ApiComment { body: paragraph("one") },
            ApiComment { body: AdfNode { node_type: Some("doc".into()), text: None, content: Some(vec![]), version: Some(1) } },
            ApiComment { body: paragraph("two") },
        ],
    });
    let issue = Issue::from_api(a);
    assert_eq!(issue.comments, "one\ntwo");
    assert!(issue.status_done);
    assert_eq!(issue.issue_type, "未設定");
    assert_eq!(issue.assignee, "未設定");
    assert_eq!(issue.estimate, "0h");
    assert_eq!(issue.estimate_seconds, 0);
    assert_eq!(issue.parent, "");
}
