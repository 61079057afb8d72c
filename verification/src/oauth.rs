//! Signing in to Atlassian with OAuth 2.0 (three-legged, with a loopback
//! redirect): the configuration, the authorization address, the decisions on
//! the browser's callback, and the page answered to it. The app does the
//! network and keyring work around them.

use vstd::prelude::*;
use crate::adf::{lines, split_lines};
use crate::jira::{push_str, JiraResource, SavedSession, TokenSet};
use crate::text::{all_digits, chars_of, digits_value, is_digit, split_on, split_on_char, split_words, string_of, words};

verus! {

/// The OAuth app registration and the redirect the browser returns to.
#[derive(Clone, Debug)]
pub struct OAuthConfig {
    pub client_id: String,
    pub client_secret: String,
    pub redirect_uri: String,
}

/// A sign-in failure, with the message shown to the user.
#[derive(Debug)]
pub struct OAuthError(pub String);

impl OAuthError {
    /// The message shown to the user.
    pub fn message(&self) -> (r: String)
        ensures
            r@ == self.0@,
    {
        self.0.clone()
    }
}

/// Whether `s` begins with `p`.
pub open spec fn starts_with(s: Seq<char>, p: Seq<char>) -> bool {
    p.len() <= s.len() && s.take(p.len() as int) == p
}

/// The parts of an absolute URL that the sign-in reads.
pub struct UrlParts {
    /// The scheme, without the `:`.
    pub scheme: String,
    /// The host as written in the URL, if it has one.
    pub host: Option<String>,
    /// The port, when one other than the scheme's default is given.
    pub port: Option<u16>,
    pub path: String,
    /// The query as decoded name and value pairs, in order.
    pub query: Vec<(String, String)>,
}

/// The view of a list of text pairs.
pub open spec fn pair_views(v: Seq<(String, String)>) -> Seq<(Seq<char>, Seq<char>)> {
    v.map_values(|p: (String, String)| (p.0@, p.1@))
}

/// The view of an optional text.
pub open spec fn opt_view(t: Option<String>) -> Option<Seq<char>> {
    match t {
        Some(s) => Some(s@),
        None => None,
    }
}

/// The view of the parts of a URL: scheme, host, port, path, query pairs.
pub open spec fn url_parts_view(p: UrlParts) -> (
    Seq<char>,
    Option<Seq<char>>,
    Option<u16>,
    Seq<char>,
    Seq<(Seq<char>, Seq<char>)>,
) {
    (p.scheme@, opt_view(p.host), p.port, p.path@, pair_views(p.query@))
}

/// What `url::Url::parse` reads from a text, seen through the accessors
/// `scheme`, `host_str`, `port`, `path` and `query_pairs`; none where it
/// refuses the text.
pub uninterp spec fn parsed_url(text: Seq<char>) -> Option<
    (Seq<char>, Option<Seq<char>>, Option<u16>, Seq<char>, Seq<(Seq<char>, Seq<char>)>),
>;

/// Parses an absolute URL with `url::Url::parse` and reads its scheme, host,
/// port, path and decoded query pairs. The contract claims only that the
/// parts are those `parsed_url` names, and that the call fails exactly when
/// `parsed_url` has none; the text of the error is not stated.
#[verifier::external_body]
fn parse_url(text: &str) -> (r: Result<UrlParts, String>)
    ensures
        match r {
            Ok(p) => parsed_url(text@) == Some(url_parts_view(p)),
            Err(_) => parsed_url(text@) is None,
        },
{
    match url::Url::parse(text) {
        Ok(u) => Ok(UrlParts {
            scheme: u.scheme().to_owned(),
            host: u.host_str().map(str::to_owned),
            port: u.port(),
            path: u.path().to_owned(),
            query: u.query_pairs().map(|(k, v)| (k.into_owned(), v.into_owned())).collect(),
        }),
        Err(error) => Err(error.to_string()),
    }
}

/// Whether a text is one part of a dotted IPv4 address as the standard
/// library reads it: one to three digits, no leading zero, at most 255.
pub open spec fn ipv4_octet(p: Seq<char>) -> bool {
    &&& 1 <= p.len() <= 3
    &&& all_digits(p)
    &&& (p.len() == 1 || p[0] != '0')
    &&& digits_value(p) <= 255
}

/// Whether a host text is a dotted IPv4 address in the loopback range
/// `127.0.0.0/8`.
pub open spec fn ipv4_loopback(host: Seq<char>) -> bool {
    let f = split_on(host, '.');
    &&& f.len() == 4
    &&& forall|i: int| 0 <= i < 4 ==> ipv4_octet(#[trigger] f[i])
    &&& digits_value(f[0]) == 127
}

/// Whether a URL host names this machine: a loopback IPv4 address or
/// `localhost`. (The host text of a URL holds a colon only inside the
/// brackets of an IPv6 address, and no IP address text has brackets.)
pub open spec fn loopback_host(host: Option<Seq<char>>) -> bool {
    match host {
        Some(h) => ipv4_loopback(h) || h == "localhost"@,
        None => false,
    }
}

/// The value of a one-to-three digit octet, or none if it is not one.
fn octet_value(p: &Vec<char>) -> (r: Option<u32>)
    ensures
        r is Some <==> ipv4_octet(p@),
        r matches Some(x) ==> x == digits_value(p@),
{
    if p.len() == 0 || p.len() > 3 {
        return None;
    }
    if p.len() > 1 && p[0] == '0' {
        return None;
    }
    let mut value: u32 = 0;
    let mut i: usize = 0;
    while i < p.len()
        invariant
            1 <= p@.len() <= 3,
            i <= p@.len(),
            all_digits(p@.take(i as int)),
            value == digits_value(p@.take(i as int)),
            value < 1000,
            value <= 99 || i == 3,
            i <= 1 ==> value <= 9,
            i <= 2 ==> value <= 99,
        decreases p@.len() - i,
    {
        let ghost t = p@.take(i + 1);
        assert(t.drop_last() =~= p@.take(i as int));
        let d = p[i] as u32;
        if d < 48 || d > 57 {
            assert(!is_digit(p@[i as int]));
            assert(!all_digits(p@));
            return None;
        }
        value = value * 10 + (d - 48);
        i = i + 1;
        assert forall|k: int| 0 <= k < i implies is_digit(#[trigger] p@.take(i as int)[k]) by {
            if k < i - 1 {
                assert(p@.take(i as int)[k] == p@.take(i - 1)[k]);
            }
        }
    }
    assert(p@.take(i as int) =~= p@);
    if value > 255 {
        None
    } else {
        Some(value)
    }
}

/// Whether a host text is a loopback IPv4 address.
fn is_ipv4_loopback(host: &str) -> (r: bool)
    ensures
        r == ipv4_loopback(host@),
{
    let v = chars_of(host);
    let f = split_on_char(&v, '.');
    let ghost fv = f@.map_values(|w: Vec<char>| w@);
    if f.len() != 4 {
        return false;
    }
    let mut i: usize = 0;
    let mut first: u32 = 0;
    while i < 4
        invariant
            f@.len() == 4,
            v@ == host@,
            fv == split_on(v@, '.'),
            fv == f@.map_values(|w: Vec<char>| w@),
            i <= 4,
            forall|k: int| 0 <= k < i ==> ipv4_octet(#[trigger] fv[k]),
            i > 0 ==> first == digits_value(fv[0]),
        decreases 4 - i,
    {
        assert(fv[i as int] == f@[i as int]@);
        match octet_value(&f[i]) {
            Some(x) => {
                if i == 0 {
                    first = x;
                }
            },
            None => {
                assert(!ipv4_octet(fv[i as int]));
                return false;
            },
        }
        i = i + 1;
    }
    first == 127
}

/// Whether a host names this machine.
fn is_loopback_host(host: &Option<String>) -> (r: bool)
    ensures
        r == loopback_host(opt_view(*host)),
{
    match host {
        Some(h) => is_ipv4_loopback(h.as_str()) || crate::text::str_eq(h.as_str(), "localhost"),
        None => false,
    }
}

/// Whether the parts of a redirect URL are those of a loopback listener
/// the app can open: `http`, a loopback host, and an explicit port.
pub open spec fn loopback_parts(
    p: (Seq<char>, Option<Seq<char>>, Option<u16>, Seq<char>, Seq<(Seq<char>, Seq<char>)>),
) -> bool {
    p.0 == "http"@ && loopback_host(p.1) && p.2 is Some
}

/// The message for a redirect that is not a loopback listener.
pub open spec fn loopback_required_text() -> Seq<char> {
    "デスクトップ版のコールバックURLは http://127.0.0.1:ポート/パス または http://localhost:ポート/パス にしてください。"@
}

/// Whether `r` is the outcome of checking the redirect URL `value`: a
/// parse failure names the setting, a URL that is not a loopback listener
/// gets the message that says what is needed, and any other is accepted.
pub open spec fn redirect_check(value: Seq<char>, r: Result<(), OAuthError>) -> bool {
    match parsed_url(value) {
        None => r matches Err(e) && starts_with(e.0@, "JIRA_OAUTH_REDIRECT_URIが不正です: "@),
        Some(p) => if loopback_parts(p) {
            r is Ok
        } else {
            r matches Err(e) && e.0@ == loopback_required_text()
        },
    }
}

/// Accepts a redirect URL only if it is `http` to this machine with an
/// explicit port, where the app can listen for the browser.
pub fn validate_loopback_redirect(value: &str) -> (r: Result<(), OAuthError>)
    ensures
        redirect_check(value@, r),
{
    let parts = match parse_url(value) {
        Ok(p) => p,
        Err(error) => {
            let mut out: Vec<char> = Vec::new();
            push_str(&mut out, "JIRA_OAUTH_REDIRECT_URIが不正です: ");
            let ghost head = out@;
            push_str(&mut out, error.as_str());
            assert(out@.take(head.len() as int) =~= head);
            return Err(OAuthError(string_of(&out)));
        },
    };
    let loopback = is_loopback_host(&parts.host);
    if !crate::text::str_eq(parts.scheme.as_str(), "http") || !loopback || parts.port.is_none() {
        return Err(
            OAuthError(
                "デスクトップ版のコールバックURLは http://127.0.0.1:ポート/パス または http://localhost:ポート/パス にしてください。".to_owned(),
            ),
        );
    }
    Ok(())
}

/// The message for a setting that is missing from the environment.
pub open spec fn missing_setting_text(name: Seq<char>) -> Seq<char> {
    name + " が未設定です。READMEのOAuth 2.0設定手順を確認してください。"@
}

/// The redirect used when none is configured.
pub open spec fn default_redirect() -> Seq<char> {
    "http://127.0.0.1:53682/callback"@
}

fn missing_setting(name: &str) -> (e: OAuthError)
    ensures
        e.0@ == missing_setting_text(name@),
{
    let mut out = chars_of(name);
    push_str(&mut out, " が未設定です。READMEのOAuth 2.0設定手順を確認してください。");
    OAuthError(string_of(&out))
}

impl OAuthConfig {
    /// The configuration from the values of `JIRA_OAUTH_CLIENT_ID`,
    /// `JIRA_OAUTH_CLIENT_SECRET` and `JIRA_OAUTH_REDIRECT_URI`, where set:
    /// the first two are required, the redirect defaults to
    /// `http://127.0.0.1:53682/callback` and must be a loopback listener.
    pub fn from_env(
        client_id: Option<String>,
        client_secret: Option<String>,
        redirect_uri: Option<String>,
    ) -> (r: Result<OAuthConfig, OAuthError>)
        ensures
            client_id is None ==> (r matches Err(e) && e.0@ == missing_setting_text(
                "JIRA_OAUTH_CLIENT_ID"@,
            )),
            client_id is Some && client_secret is None ==> (r matches Err(e) && e.0@
                == missing_setting_text("JIRA_OAUTH_CLIENT_SECRET"@)),
            client_id is Some && client_secret is Some ==> {
                let uri = match redirect_uri {
                    Some(u) => u@,
                    None => default_redirect(),
                };
                &&& redirect_check(
                    uri,
                    match r {
                        Ok(_) => Ok(()),
                        Err(e) => Err(e),
                    },
                )
                &&& r matches Ok(c) ==> c.client_id == client_id->0 && c.client_secret
                    == client_secret->0 && c.redirect_uri@ == uri
            },
    {
        let client_id = match client_id {
            Some(v) => v,
            None => {
                return Err(missing_setting("JIRA_OAUTH_CLIENT_ID"));
            },
        };
        let client_secret = match client_secret {
            Some(v) => v,
            None => {
                return Err(missing_setting("JIRA_OAUTH_CLIENT_SECRET"));
            },
        };
        let redirect_uri = match redirect_uri {
            Some(v) => v,
            None => "http://127.0.0.1:53682/callback".to_owned(),
        };
        match validate_loopback_redirect(redirect_uri.as_str()) {
            Ok(()) => Ok(OAuthConfig { client_id, client_secret, redirect_uri }),
            Err(e) => Err(e),
        }
    }
}

/// The scopes the app asks for: read and write Jira work, and a refresh
/// token.
pub open spec fn scopes_text() -> Seq<char> {
    "read:jira-work write:jira-work offline_access"@
}

/// The query of the authorization address, in order.
pub open spec fn authorization_pairs(config: OAuthConfig, state: Seq<char>) -> Seq<
    (Seq<char>, Seq<char>),
> {
    seq![
        ("audience"@, "api.atlassian.com"@),
        ("client_id"@, config.client_id@),
        ("scope"@, scopes_text()),
        ("redirect_uri"@, config.redirect_uri@),
        ("state"@, state),
        ("response_type"@, "code"@),
        ("prompt"@, "consent"@),
    ]
}

/// The text of the URL `base` (parsed with `url::Url::parse`) with the
/// `pairs` appended to its query by `form_urlencoded`'s `append_pair`; none
/// where `base` does not parse.
pub uninterp spec fn url_with_query(base: Seq<char>, pairs: Seq<(Seq<char>, Seq<char>)>) -> Option<
    Seq<char>,
>;

/// Appends query pairs to a URL with `url::Url::parse`, `query_pairs_mut`
/// and `extend_pairs`, and writes the URL out. The contract claims only that
/// the text is the one `url_with_query` names for the same base and pairs,
/// and that the call fails exactly when that has none; the text of the
/// error is not stated.
#[verifier::external_body]
fn append_query(base: &str, pairs: &Vec<(String, String)>) -> (r: Result<String, String>)
    ensures
        match r {
            Ok(u) => url_with_query(base@, pair_views(pairs@)) == Some(u@),
            Err(_) => url_with_query(base@, pair_views(pairs@)) is None,
        },
{
    match url::Url::parse(base) {
        Ok(mut url) => {
            url.query_pairs_mut().extend_pairs(pairs.iter());
            Ok(url.into())
        },
        Err(error) => Err(error.to_string()),
    }
}

/// The Atlassian page where the user authorizes the app: the audience, the
/// client id, the scopes, the redirect, the anti-forgery `state`, a code
/// response and a consent prompt. The client secret is not part of it.
pub fn build_authorization_url(config: &OAuthConfig, state: &str) -> (r: Result<String, OAuthError>)
    ensures
        match url_with_query(
            "https://auth.atlassian.com/authorize"@,
            authorization_pairs(*config, state@),
        ) {
            Some(u) => r matches Ok(x) && x@ == u,
            None => r is Err,
        },
{
    let pairs: Vec<(String, String)> = vec![
        ("audience".to_owned(), "api.atlassian.com".to_owned()),
        ("client_id".to_owned(), config.client_id.clone()),
        ("scope".to_owned(), "read:jira-work write:jira-work offline_access".to_owned()),
        ("redirect_uri".to_owned(), config.redirect_uri.clone()),
        ("state".to_owned(), state.to_owned()),
        ("response_type".to_owned(), "code".to_owned()),
        ("prompt".to_owned(), "consent".to_owned()),
    ];
    assert(pair_views(pairs@) =~= authorization_pairs(*config, state@));
    match append_query("https://auth.atlassian.com/authorize", &pairs) {
        Ok(u) => Ok(u),
        Err(e) => Err(OAuthError(e)),
    }
}

/// The client secret is never handed to the authorization address: where it
/// differs from the client id, the redirect and the state, no query value
/// is the secret.
pub proof fn law_authorization_omits_secret(config: OAuthConfig, state: Seq<char>)
    requires
        config.client_secret@ != config.client_id@,
        config.client_secret@ != config.redirect_uri@,
        config.client_secret@ != state,
        config.client_secret@ != "api.atlassian.com"@,
        config.client_secret@ != scopes_text(),
        config.client_secret@ != "code"@,
        config.client_secret@ != "consent"@,
    ensures
        forall|i: int|
            0 <= i < authorization_pairs(config, state).len() ==> #[trigger] authorization_pairs(
                config,
                state,
            )[i].1 != config.client_secret@,
{
}

/// The value of a query name, the last one given as a map built from the
/// pairs keeps it.
pub open spec fn query_value(pairs: Seq<(Seq<char>, Seq<char>)>, name: Seq<char>) -> Option<Seq<char>>
    decreases pairs.len(),
{
    if pairs.len() == 0 {
        None
    } else if pairs.last().0 == name {
        Some(pairs.last().1)
    } else {
        query_value(pairs.drop_last(), name)
    }
}

/// The value of a query name.
fn find_query_value(pairs: &Vec<(String, String)>, name: &str) -> (r: Option<String>)
    ensures
        opt_view(r) == query_value(pair_views(pairs@), name@),
{
    let mut i: usize = pairs.len();
    assert(pairs@.take(i as int) =~= pairs@);
    while i > 0
        invariant
            i <= pairs@.len(),
            query_value(pair_views(pairs@), name@) == query_value(pair_views(pairs@.take(i as int)), name@),
        decreases i,
    {
        let ghost t = pair_views(pairs@.take(i as int));
        assert(pair_views(pairs@.take(i - 1)) =~= t.drop_last());
        if crate::text::str_eq(pairs[i - 1].0.as_str(), name) {
            return Some(pairs[i - 1].1.clone());
        }
        i = i - 1;
    }
    None
}

/// The request target of an HTTP request: the second word of its first
/// line.
pub open spec fn request_target(request: Seq<char>) -> Option<Seq<char>> {
    let ls = lines(request);
    if ls.len() > 0 && words(ls[0]).len() >= 2 {
        Some(words(ls[0])[1])
    } else {
        None
    }
}

/// The request target of an HTTP request.
fn find_request_target(request: &str) -> (r: Option<String>)
    ensures
        opt_view(r) == request_target(request@),
{
    let v = chars_of(request);
    let ls = split_lines(&v);
    if ls.len() == 0 {
        return None;
    }
    assert(ls@.map_values(|l: Vec<char>| l@)[0] == ls@[0]@);
    let ws = split_words(&ls[0]);
    if ws.len() < 2 {
        return None;
    }
    assert(ws@.map_values(|w: Vec<char>| w@)[1] == ws@[1]@);
    Some(string_of(&ws[1]))
}

/// What to do with one request the browser sent to the loopback listener.
pub enum CallbackStep {
    /// The request cannot be read: stop with this error, answering nothing.
    Fail(OAuthError),
    /// Answer `status` with `message`, and keep waiting for the callback.
    Skip { status: u16, message: String },
    /// Answer `status` with `message`, and stop with `result`: the
    /// authorization code, or the error.
    Reply { status: u16, message: String, result: Result<String, OAuthError> },
}

/// Whether `s` is the step for the browser request `request` when the
/// callback is expected at `redirect_path` carrying `expected_state`.
pub open spec fn callback_step_is(
    s: CallbackStep,
    request: Seq<char>,
    redirect_path: Seq<char>,
    expected_state: Seq<char>,
) -> bool {
    match request_target(request) {
        None => s matches CallbackStep::Fail(e) && e.0@ == "コールバック要求を解釈できません。"@,
        Some(t) => match parsed_url("http://localhost"@ + t) {
            None => s matches CallbackStep::Fail(e) && starts_with(e.0@, "コールバックURLが不正です: "@),
            Some(p) => {
                let q = p.4;
                if p.3 != redirect_path {
                    s matches CallbackStep::Skip { status, message } && status == 404 && message@
                        == "Jira Lens: callback path not found"@
                } else if query_value(q, "state"@) != Some(expected_state) {
                    s matches CallbackStep::Reply { status, message, result } && status == 400
                        && message@ == "Jira Lens: invalid OAuth state"@ && (result matches Err(e)
                        && e.0@ == "OAuth stateが一致しません。接続を中止しました。"@)
                } else if query_value(q, "error"@) is Some {
                    s matches CallbackStep::Reply { status, message, result } && status == 400
                        && message@ == "Jira Lens: authorization canceled"@ && (result matches Err(e)
                        && e.0@ == "Atlassian認可エラー: "@ + query_value(q, "error"@)->0)
                } else if query_value(q, "code"@) is Some {
                    s matches CallbackStep::Reply { status, message, result } && status == 200
                        && message@ == "Jira Lens connected. You can close this browser tab."@
                        && (result matches Ok(code) && code@ == query_value(q, "code"@)->0)
                } else {
                    s matches CallbackStep::Fail(e) && e.0@ == "認可コードがありません。"@
                }
            },
        },
    }
}

/// Decides on one request to the loopback listener: a request for another
/// path is answered with 404 and waited past; a callback with the wrong
/// state or an authorization error is refused; otherwise its authorization
/// code is taken.
pub fn callback_step(request: &str, redirect_path: &str, expected_state: &str) -> (s: CallbackStep)
    ensures
        callback_step_is(s, request@, redirect_path@, expected_state@),
{
    let target = match find_request_target(request) {
        Some(t) => t,
        None => {
            return CallbackStep::Fail(OAuthError("コールバック要求を解釈できません。".to_owned()));
        },
    };
    let mut address = chars_of("http://localhost");
    push_str(&mut address, target.as_str());
    let address = string_of(&address);
    let parts = match parse_url(address.as_str()) {
        Ok(p) => p,
        Err(error) => {
            let mut out: Vec<char> = Vec::new();
            push_str(&mut out, "コールバックURLが不正です: ");
            let ghost head = out@;
            push_str(&mut out, error.as_str());
            assert(out@.take(head.len() as int) =~= head);
            return CallbackStep::Fail(OAuthError(string_of(&out)));
        },
    };
    if !crate::text::str_eq(parts.path.as_str(), redirect_path) {
        return CallbackStep::Skip {
            status: 404,
            message: "Jira Lens: callback path not found".to_owned(),
        };
    }
    let state_ok = match find_query_value(&parts.query, "state") {
        Some(v) => crate::text::str_eq(v.as_str(), expected_state),
        None => false,
    };
    if !state_ok {
        return CallbackStep::Reply {
            status: 400,
            message: "Jira Lens: invalid OAuth state".to_owned(),
            result: Err(OAuthError("OAuth stateが一致しません。接続を中止しました。".to_owned())),
        };
    }
    match find_query_value(&parts.query, "error") {
        Some(error) => {
            let mut out = chars_of("Atlassian認可エラー: ");
            push_str(&mut out, error.as_str());
            return CallbackStep::Reply {
                status: 400,
                message: "Jira Lens: authorization canceled".to_owned(),
                result: Err(OAuthError(string_of(&out))),
            };
        },
        None => {},
    }
    match find_query_value(&parts.query, "code") {
        Some(code) => CallbackStep::Reply {
            status: 200,
            message: "Jira Lens connected. You can close this browser tab.".to_owned(),
            result: Ok(code),
        },
        None => CallbackStep::Fail(OAuthError("認可コードがありません。".to_owned())),
    }
}

/// The number of bytes a character takes in UTF-8.
pub open spec fn utf8_width(c: char) -> nat {
    if (c as u32) < 0x80 {
        1
    } else if (c as u32) < 0x800 {
        2
    } else if (c as u32) < 0x10000 {
        3
    } else {
        4
    }
}

/// The number of bytes a text takes in UTF-8.
pub open spec fn utf8_len(s: Seq<char>) -> nat
    decreases s.len(),
{
    if s.len() == 0 {
        0
    } else {
        utf8_len(s.drop_last()) + utf8_width(s.last())
    }
}

/// The page shown in the browser after the callback.
pub open spec fn page_body(message: Seq<char>) -> Seq<char> {
    "<!doctype html><meta charset=utf-8><title>Jira Lens</title><h1>"@ + message + "</h1>"@
}

/// The HTTP response that shows a message page: the status, `OK` for 200
/// and `Error` otherwise, an HTML content type, the body's length in bytes,
/// and a closed connection.
pub open spec fn response_text(status: u16, message: Seq<char>) -> Seq<char> {
    let body = page_body(message);
    "HTTP/1.1 "@ + crate::text::decimal(status as nat) + " "@ + (if status == 200 {
        "OK"@
    } else {
        "Error"@
    }) + "\r\nContent-Type: text/html; charset=utf-8\r\nContent-Length: "@ + crate::text::decimal(
        utf8_len(body),
    ) + "\r\nConnection: close\r\n\r\n"@ + body
}

/// The number of bytes a text takes in UTF-8.
fn utf8_length(v: &Vec<char>) -> (n: u64)
    requires
        utf8_len(v@) <= u64::MAX,
    ensures
        n == utf8_len(v@),
{
    let mut n: u64 = 0;
    let mut i: usize = 0;
    while i < v.len()
        invariant
            i <= v@.len(),
            n == utf8_len(v@.take(i as int)),
            utf8_len(v@) <= u64::MAX,
        decreases v@.len() - i,
    {
        let ghost t = v@.take(i + 1);
        assert(t.drop_last() =~= v@.take(i as int));
        proof {
            lemma_utf8_len_prefix(v@, i + 1);
        }
        let c = v[i] as u32;
        let w: u64 = if c < 0x80 {
            1
        } else if c < 0x800 {
            2
        } else if c < 0x10000 {
            3
        } else {
            4
        };
        n = n + w;
        i = i + 1;
    }
    assert(v@.take(i as int) =~= v@);
    n
}

proof fn lemma_utf8_len_prefix(s: Seq<char>, k: int)
    requires
        0 <= k <= s.len(),
    ensures
        utf8_len(s.take(k)) <= utf8_len(s),
    decreases s.len() - k,
{
    if k < s.len() {
        lemma_utf8_len_prefix(s, k + 1);
        assert(s.take(k + 1).drop_last() =~= s.take(k));
    } else {
        assert(s.take(k) =~= s);
    }
}

/// The HTTP response for the browser tab after the callback.
pub fn respond(status: u16, message: &str) -> (r: String)
    requires
        utf8_len(page_body(message@)) <= u64::MAX,
    ensures
        r@ == response_text(status, message@),
{
    let mut body = chars_of("<!doctype html><meta charset=utf-8><title>Jira Lens</title><h1>");
    push_str(&mut body, message);
    push_str(&mut body, "</h1>");
    let length = utf8_length(&body);
    let mut out = chars_of("HTTP/1.1 ");
    crate::text::push_decimal(&mut out, status as u64);
    if status == 200 {
        push_str(&mut out, " OK");
    } else {
        push_str(&mut out, " Error");
    }
    push_str(&mut out, "\r\nContent-Type: text/html; charset=utf-8\r\nContent-Length: ");
    crate::text::push_decimal(&mut out, length);
    push_str(&mut out, "\r\nConnection: close\r\n\r\n");
    let ghost head = out@;
    let mut i: usize = 0;
    while i < body.len()
        invariant
            i <= body@.len(),
            out@ == head + body@.take(i as int),
        decreases body@.len() - i,
    {
        out.push(body[i]);
        i = i + 1;
        assert(out@ =~= head + body@.take(i as int));
    }
    assert(body@.take(i as int) =~= body@);
    proof {
        reveal_strlit(" OK");
        reveal_strlit(" Error");
        reveal_strlit("OK");
        reveal_strlit("Error");
        reveal_strlit(" ");
    }
    assert(out@ =~= response_text(status, message@));
    string_of(&out)
}

/// A request to the token endpoint: an authorization code or a refresh
/// token traded for tokens.
pub struct TokenRequest {
    pub grant_type: String,
    pub client_id: String,
    pub client_secret: String,
    /// The authorization code, when one is traded.
    pub code: Option<String>,
    /// The refresh token, when one is traded.
    pub refresh_token: Option<String>,
    /// The redirect the code was issued for, when a code is traded.
    pub redirect_uri: Option<String>,
}

/// The request that trades a refresh token for new tokens.
pub fn refresh_request(config: &OAuthConfig, refresh_token: &str) -> (r: TokenRequest)
    ensures
        r.grant_type@ == "refresh_token"@,
        r.client_id == config.client_id,
        r.client_secret == config.client_secret,
        r.code is None,
        opt_view(r.refresh_token) == Some(refresh_token@),
        r.redirect_uri is None,
{
    TokenRequest {
        grant_type: "refresh_token".to_owned(),
        client_id: config.client_id.clone(),
        client_secret: config.client_secret.clone(),
        code: None,
        refresh_token: Some(refresh_token.to_owned()),
        redirect_uri: None,
    }
}

/// The request that trades an authorization code for tokens.
pub fn code_request(config: &OAuthConfig, code: &str) -> (r: TokenRequest)
    ensures
        r.grant_type@ == "authorization_code"@,
        r.client_id == config.client_id,
        r.client_secret == config.client_secret,
        opt_view(r.code) == Some(code@),
        r.refresh_token is None,
        r.redirect_uri == Some(config.redirect_uri),
{
    TokenRequest {
        grant_type: "authorization_code".to_owned(),
        client_id: config.client_id.clone(),
        client_secret: config.client_secret.clone(),
        code: Some(code.to_owned()),
        refresh_token: None,
        redirect_uri: Some(config.redirect_uri.clone()),
    }
}

/// The session from fresh tokens and the sites they open; refused when no
/// site is open to them.
pub fn connected_session(tokens: TokenSet, resources: Vec<JiraResource>) -> (r: Result<SavedSession, OAuthError>)
    ensures
        resources@.len() == 0 <==> r is Err,
        r matches Err(e) ==> e.0@ == "利用可能なJiraサイトがありません。認可したサイトとスコープを確認してください。"@,
        r matches Ok(s) ==> s.tokens == tokens && s.resources@ == resources@,
{
    if resources.len() == 0 {
        return Err(
            OAuthError(
                "利用可能なJiraサイトがありません。認可したサイトとスコープを確認してください。".to_owned(),
            ),
        );
    }
    Ok(SavedSession { tokens, resources })
}

/// The pieces a secret is stored in, for stores that limit the size of one
/// entry: consecutive runs of `size` characters, the last one possibly
/// shorter; none for an empty secret.
pub open spec fn chunks_of(t: Seq<char>, size: nat) -> Seq<Seq<char>>
    decreases t.len(),
{
    if t.len() == 0 {
        seq![]
    } else if size == 0 || t.len() <= size {
        seq![t]
    } else {
        seq![t.take(size as int)] + chunks_of(t.skip(size as int), size)
    }
}

/// Texts written one after another.
pub open spec fn concat(parts: Seq<Seq<char>>) -> Seq<char>
    decreases parts.len(),
{
    if parts.len() == 0 {
        seq![]
    } else {
        parts[0] + concat(parts.drop_first())
    }
}

proof fn lemma_concat_append(a: Seq<Seq<char>>, b: Seq<Seq<char>>)
    ensures
        concat(a + b) == concat(a) + concat(b),
    decreases a.len(),
{
    if a.len() == 0 {
        assert(a + b =~= b);
        assert(concat(a) =~= Seq::<char>::empty());
        assert(concat(a) + concat(b) =~= concat(b));
    } else {
        lemma_concat_append(a.drop_first(), b);
        assert((a + b).drop_first() =~= a.drop_first() + b);
        assert(concat(a) + concat(b) =~= a[0] + (concat(a.drop_first()) + concat(b)));
    }
}

proof fn lemma_concat_one(x: Seq<char>)
    ensures
        concat(seq![x]) == x,
{
    let one = seq![x];
    assert(one.len() == 1);
    assert(one[0] == x);
    assert(one.drop_first() =~= Seq::<Seq<char>>::empty());
    assert(concat(one.drop_first()) == Seq::<char>::empty());
    assert(concat(one) == one[0] + concat(one.drop_first()));
    assert(x + Seq::<char>::empty() =~= x);
}

/// Splitting a secret into pieces and joining them gives it back, and each
/// piece holds between one and `size` characters.
pub proof fn law_chunks_rejoin(t: Seq<char>, size: nat)
    requires
        size > 0,
    ensures
        concat(chunks_of(t, size)) == t,
        forall|i: int|
            0 <= i < chunks_of(t, size).len() ==> 0 < #[trigger] chunks_of(t, size)[i].len() <= size,
    decreases t.len(),
{
    if t.len() == 0 {
    } else if t.len() <= size {
        lemma_concat_one(t);
    } else {
        let rest = t.skip(size as int);
        law_chunks_rejoin(rest, size);
        let c = chunks_of(t, size);
        assert(c == seq![t.take(size as int)] + chunks_of(rest, size));
        lemma_concat_append(seq![t.take(size as int)], chunks_of(rest, size));
        lemma_concat_one(t.take(size as int));
        assert(t.take(size as int) + rest =~= t);
        assert forall|i: int| 0 <= i < c.len() implies 0 < #[trigger] c[i].len() <= size by {
            if i > 0 {
                assert(c[i] == chunks_of(rest, size)[i - 1]);
            }
        }
    }
}

/// The pieces a secret is stored in.
pub fn token_chunks(token: &str, size: usize) -> (r: Vec<String>)
    requires
        size > 0,
    ensures
        crate::keys::views(r@) == chunks_of(token@, size as nat),
{
    let v = chars_of(token);
    let ghost t = v@;
    let mut out: Vec<String> = Vec::new();
    let mut i: usize = 0;
    assert(t.skip(0) =~= t);
    assert(crate::keys::views(out@) + chunks_of(t.skip(0), size as nat) =~= chunks_of(t, size as nat));
    while i < v.len()
        invariant
            i <= v@.len(),
            t == v@,
            t == token@,
            size > 0,
            crate::keys::views(out@) + chunks_of(t.skip(i as int), size as nat) == chunks_of(t, size as nat),
        decreases v@.len() - i,
    {
        let ghost rest = t.skip(i as int);
        let end = if v.len() - i <= size {
            v.len()
        } else {
            i + size
        };
        let mut piece: Vec<char> = Vec::new();
        let mut j: usize = i;
        while j < end
            invariant
                i <= j <= end,
                end <= v@.len(),
                piece@ == t.subrange(i as int, j as int),
                t == v@,
            decreases end - j,
        {
            piece.push(v[j]);
            j = j + 1;
            assert(piece@ =~= t.subrange(i as int, j as int));
        }
        let ghost before = crate::keys::views(out@);
        out.push(string_of(&piece));
        assert(crate::keys::views(out@) =~= before.push(piece@));
        if end == v.len() {
            assert(piece@ =~= rest);
            assert(chunks_of(rest, size as nat) == seq![rest]);
            assert(t.skip(end as int) =~= Seq::<char>::empty());
            assert(before.push(piece@) + chunks_of(t.skip(end as int), size as nat) =~= before + seq![rest]);
        } else {
            assert(piece@ =~= rest.take(size as int));
            assert(rest.skip(size as int) =~= t.skip(end as int));
            assert(chunks_of(rest, size as nat) == seq![rest.take(size as int)] + chunks_of(rest.skip(size as int), size as nat));
            assert(before.push(piece@) + chunks_of(t.skip(end as int), size as nat) =~= before + (seq![rest.take(size as int)] + chunks_of(rest.skip(size as int), size as nat)));
        }
        i = end;
    }
    assert(t.skip(i as int) =~= Seq::<char>::empty());
    assert(crate::keys::views(out@) + Seq::<Seq<char>>::empty() =~= crate::keys::views(out@));
    out
}

/// A secret joined back from its stored pieces.
pub fn join_chunks(parts: &Vec<String>) -> (r: String)
    ensures
        r@ == concat(crate::keys::views(parts@)),
{
    let ghost ps = crate::keys::views(parts@);
    let mut out: Vec<char> = Vec::new();
    let mut k: usize = 0;
    assert(ps.skip(0) =~= ps);
    while k < parts.len()
        invariant
            k <= parts@.len(),
            ps == crate::keys::views(parts@),
            out@ + concat(ps.skip(k as int)) == concat(ps),
        decreases parts@.len() - k,
    {
        let ghost before = out@;
        let ghost rest = ps.skip(k as int);
        assert(rest.drop_first() =~= ps.skip(k + 1));
        assert(rest[0] == parts@[k as int]@);
        push_str(&mut out, parts[k].as_str());
        assert(out@ + concat(ps.skip(k + 1)) =~= before + (rest[0] + concat(rest.drop_first())));
        k = k + 1;
    }
    assert(ps.skip(k as int) =~= Seq::<Seq<char>>::empty());
    assert(out@ + concat(Seq::<Seq<char>>::empty()) =~= out@);
    string_of(&out)
}

/// The authorization address asks for this app and this sign-in: its query
/// names the client id, the state, the redirect, the audience, the scopes, a
/// code response and a consent prompt, each with the value given.
pub proof fn law_authorization_query(config: OAuthConfig, state: Seq<char>)
    ensures
        query_value(authorization_pairs(config, state), "client_id"@) == Some(config.client_id@),
        query_value(authorization_pairs(config, state), "state"@) == Some(state),
        query_value(authorization_pairs(config, state), "redirect_uri"@) == Some(config.redirect_uri@),
        query_value(authorization_pairs(config, state), "audience"@) == Some("api.atlassian.com"@),
        query_value(authorization_pairs(config, state), "scope"@) == Some(scopes_text()),
        query_value(authorization_pairs(config, state), "response_type"@) == Some("code"@),
        query_value(authorization_pairs(config, state), "prompt"@) == Some("consent"@),
{
    reveal_strlit("audience");
    reveal_strlit("client_id");
    reveal_strlit("scope");
    reveal_strlit("redirect_uri");
    reveal_strlit("state");
    reveal_strlit("response_type");
    reveal_strlit("prompt");
    let p = authorization_pairs(config, state);
    assert(p.take(7) =~= p);
    assert forall|m: int| 0 < m <= 7 implies #[trigger] p.take(m).drop_last() =~= p.take(m - 1) by {}
    assert(p.take(1).last().0 == "audience"@);
    assert("audience"@.len() != "client_id"@.len());
    assert(query_value(p.take(0), "client_id"@) is None);
    assert(query_value(p.take(1), "client_id"@) is None);
    assert("state"@[1] != "scope"@[1]);
    assert("redirect_uri"@.len() != "state"@.len());
    assert("state"@.len() != "response_type"@.len() && "state"@.len() != "prompt"@.len());
    assert("redirect_uri"@.len() != "response_type"@.len() && "redirect_uri"@.len() != "prompt"@.len());
    assert(p.take(5).last().0 == "state"@);
    assert(p.take(4).last().0 == "redirect_uri"@);
    assert(query_value(p.take(5), "state"@) == Some(state));
    assert(query_value(p.take(6), "state"@) == Some(state));
    assert(query_value(p.take(4), "redirect_uri"@) == Some(config.redirect_uri@));
    assert(query_value(p.take(5), "redirect_uri"@) == Some(config.redirect_uri@));
    assert(query_value(p.take(6), "redirect_uri"@) == Some(config.redirect_uri@));
    reveal_with_fuel(query_value, 8);
}

} // verus!
