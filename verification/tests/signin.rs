use jira_lens::jira::{JiraResource, TokenSet};
use jira_lens::oauth::{join_chunks, token_chunks};
use jira_lens::oauth::{
    callback_step, code_request, connected_session, refresh_request, respond, validate_loopback_redirect,
    CallbackStep, OAuthConfig,
};

fn config() -> OAuthConfig {
    OAuthConfig {
        client_id: "client-id".into(),
        client_secret: "never-in-url".into(),
        redirect_uri: "http://127.0.0.1:53682/callback".into(),
    }
}

#[test]
fn configuration_needs_id_and_secret_and_defaults_the_redirect() {
    match OAuthConfig::from_env(None, Some("s".into()), None) {
        Err(e) => assert_eq!(e.message(), "JIRA_OAUTH_CLIENT_ID が未設定です。READMEのOAuth 2.0設定手順を確認してください。"),
        Ok(_) => panic!(),
    }
    match OAuthConfig::from_env(Some("i".into()), None, None) {
        Err(e) => assert_eq!(e.message(), "JIRA_OAUTH_CLIENT_SECRET が未設定です。READMEのOAuth 2.0設定手順を確認してください。"),
        Ok(_) => panic!(),
    }
    let c = OAuthConfig::from_env(Some("i".into()), Some("s".into()), None).ok().unwrap();
    assert_eq!(c.redirect_uri, "http://127.0.0.1:53682/callback");
    assert!(OAuthConfig::from_env(Some("i".into()), Some("s".into()), Some("https://example.com/cb".into())).is_err());
}

#[test]
fn redirects_must_be_loopback_http_with_a_port() {
    assert!(validate_loopback_redirect("http://127.1.2.3:8080/cb").is_ok());
    assert!(validate_loopback_redirect("http://localhost:1/").is_ok());
    let no_port = validate_loopback_redirect("http://127.0.0.1/callback");
    match no_port {
        Err(e) => assert_eq!(
            e.message(),
            "デスクトップ版のコールバックURLは http://127.0.0.1:ポート/パス または http://localhost:ポート/パス にしてください。"
        ),
        Ok(_) => panic!(),
    }
    assert!(validate_loopback_redirect("http://10.0.0.1:8080/cb").is_err());
    assert!(validate_loopback_redirect("http://[::1]:8080/cb").is_err());
    match validate_loopback_redirect("not a url") {
        Err(e) => assert!(e.message().starts_with("JIRA_OAUTH_REDIRECT_URIが不正です: ")),
        Ok(_) => panic!(),
    }
}

fn get(target: &str) -> String {
    format!("GET {target} HTTP/1.1\r\nHost: 127.0.0.1:53682\r\n\r\n")
}

#[test]
fn callback_takes_the_code_only_with_the_right_state() {
    match callback_step(&get("/callback?state=s1&code=abc"), "/callback", "s1") {
        CallbackStep::Reply { status, message, result } => {
            assert_eq!(status, 200);
            assert_eq!(message, "Jira Lens connected. You can close this browser tab.");
            assert_eq!(result.ok().unwrap(), "abc");
        }
        _ => panic!(),
    }
    match callback_step(&get("/favicon.ico"), "/callback", "s1") {
        CallbackStep::Skip { status, message } => {
            assert_eq!(status, 404);
            assert_eq!(message, "Jira Lens: callback path not found");
        }
        _ => panic!(),
    }
    match callback_step(&get("/callback?state=other&code=abc"), "/callback", "s1") {
        CallbackStep::Reply { status, result, .. } => {
            assert_eq!(status, 400);
            assert_eq!(result.err().unwrap().message(), "OAuth stateが一致しません。接続を中止しました。");
        }
        _ => panic!(),
    }
    match callback_step(&get("/callback?state=s1&error=access_denied"), "/callback", "s1") {
        CallbackStep::Reply { status, message, result } => {
            assert_eq!(status, 400);
            assert_eq!(message, "Jira Lens: authorization canceled");
            assert_eq!(result.err().unwrap().message(), "Atlassian認可エラー: access_denied");
        }
        _ => panic!(),
    }
    match callback_step(&get("/callback?state=s1"), "/callback", "s1") {
        CallbackStep::Fail(e) => assert_eq!(e.message(), "認可コードがありません。"),
        _ => panic!(),
    }
    match callback_step("garbage", "/callback", "s1") {
        CallbackStep::Fail(e) => assert_eq!(e.message(), "コールバック要求を解釈できません。"),
        _ => panic!(),
    }
    match callback_step(&get("/callback?state=a&state=s1&code=x"), "/callback", "s1") {
        CallbackStep::Reply { status, .. } => assert_eq!(status, 200),
        _ => panic!("the last state given counts"),
    }
}

#[test]
fn response_declares_the_body_length_in_bytes() {
    let r = respond(200, "ok");
    let body = "<!doctype html><meta charset=utf-8><title>Jira Lens</title><h1>ok</h1>";
    assert_eq!(
        r,
        format!(
            "HTTP/1.1 200 OK\r\nContent-Type: text/html; charset=utf-8\r\nContent-Length: {}\r\nConnection: close\r\n\r\n{body}",
            body.len()
        )
    );
    let r = respond(404, "見つかりません");
    assert!(r.starts_with("HTTP/1.1 404 Error\r\n"));
    let body = "<!doctype html><meta charset=utf-8><title>Jira Lens</title><h1>見つかりません</h1>";
    assert!(r.contains(&format!("Content-Length: {}\r\n", body.len())));
    assert!(r.ends_with(body));
}

#[test]
fn token_requests_carry_the_grant() {
    let r = refresh_request(&config(), "rt");
    assert_eq!(r.grant_type, "refresh_token");
    assert_eq!(r.refresh_token.as_deref(), Some("rt"));
    assert!(r.code.is_none() && r.redirect_uri.is_none());
    let c = code_request(&config(), "code-1");
    assert_eq!(c.grant_type, "authorization_code");
    assert_eq!(c.code.as_deref(), Some("code-1"));
    assert_eq!(c.redirect_uri.as_deref(), Some("http://127.0.0.1:53682/callback"));
    assert_eq!(c.client_secret, "never-in-url");
}

#[test]
fn a_session_needs_a_site() {
    let tokens = || TokenSet { access_token: "a".into(), refresh_token: None, expires_in: 1, scope: String::new() };
    match connected_session(tokens(), vec![]) {
        Err(e) => assert_eq!(e.message(), "利用可能なJiraサイトがありません。認可したサイトとスコープを確認してください。"),
        Ok(_) => panic!(),
    }
    let site = JiraResource { id: "1".into(), name: "n".into(), url: "u".into(), scopes: vec![] };
    assert_eq!(connected_session(tokens(), vec![site]).ok().unwrap().resources.len(), 1);
}

#[test]
fn stored_token_pieces_join_back() {
    let token = "abcdefghij".repeat(25) + "xyz";
    let parts = token_chunks(&token, 100);
    assert_eq!(parts.len(), 3);
    assert_eq!(parts[2], "abcdefghij".repeat(5) + "xyz");
    assert_eq!(join_chunks(&parts), token);
    assert!(token_chunks("", 100).is_empty());
    assert_eq!(token_chunks("トークン", 3), ["トーク", "ン"]);
}
