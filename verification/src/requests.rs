//! The requests that change an issue: its edited fields and a new worklog.
//! Each is planned here; the app sends it and reports a failure with the
//! message built here.

use vstd::prelude::*;
use chrono::{Datelike, TimeZone, Timelike};
use crate::adf::{is_text_doc, text_to_adf, AdfNode};
use crate::duration::{jira_duration, jira_text};
use crate::fetch::opt_text;
use crate::jira::{issue_endpoint, issue_endpoint_text, primary_resource, push_str, SavedSession};
use crate::text::{all_digits, chars_of, decimal, string_of, trim, trimmed};

verus! {

/// Why a request that expects no content failed.
pub enum SendFailure {
    /// The request could not be sent or no answer came; the error text.
    Transport(String),
    /// The server refused: the status as shown and the body it sent.
    Status(String, String),
}

/// The message for a failed request, naming what was attempted.
pub open spec fn send_failure_text(action: Seq<char>, f: SendFailure) -> Seq<char> {
    match f {
        SendFailure::Transport(e) => action + "に失敗しました: "@ + e@,
        SendFailure::Status(status, body) => action + "に失敗しました ("@ + status@ + "): "@ + body@,
    }
}

/// The message for a failed request, naming what was attempted.
pub fn send_failure_message(action: &str, f: SendFailure) -> (r: String)
    ensures
        r@ == send_failure_text(action@, f),
{
    let mut out: Vec<char> = Vec::new();
    push_str(&mut out, action);
    match f {
        SendFailure::Transport(e) => {
            push_str(&mut out, "に失敗しました: ");
            push_str(&mut out, e.as_str());
        },
        SendFailure::Status(status, body) => {
            push_str(&mut out, "に失敗しました (");
            push_str(&mut out, status.as_str());
            push_str(&mut out, "): ");
            push_str(&mut out, body.as_str());
        },
    }
    string_of(&out)
}

/// The edit of an issue, ready to be sent with `PUT`.
pub struct IssueUpdate {
    /// What the request does, for its failure message.
    pub action: String,
    pub endpoint: String,
    pub access_token: String,
    pub summary: String,
    pub description: AdfNode,
    /// The due date; none clears it.
    pub due: Option<String>,
    /// The original estimate in Jira's duration notation.
    pub original_estimate: String,
}

/// The due date as sent: cleared when blank, trimmed otherwise.
pub open spec fn due_value(due: Seq<char>) -> Option<Seq<char>> {
    if trim(due).len() == 0 {
        None
    } else {
        Some(trim(due))
    }
}

/// Plans the edit of an issue's summary, description, due date and original
/// estimate on the session's first site. Fails when the session has no site.
pub fn update_issue(
    session: &SavedSession,
    issue_key: &str,
    summary: &str,
    description: &str,
    due: &str,
    estimate_seconds: i64,
) -> (r: Result<IssueUpdate, String>)
    ensures
        session.resources@.len() == 0 <==> r is Err,
        r matches Err(e) ==> e@ == "利用可能なJiraサイトがありません。"@,
        r matches Ok(u) ==> {
            &&& u.action@ == "Jira課題の更新"@
            &&& u.endpoint@ == issue_endpoint_text(session.resources@[0].id@, issue_key@)
            &&& u.access_token@ == session.tokens.access_token@
            &&& u.summary@ == trim(summary@)
            &&& is_text_doc(u.description, description@)
            &&& opt_text(u.due) == due_value(due@)
            &&& u.original_estimate@ == jira_text(estimate_seconds)
        },
{
    let resource = match primary_resource(session) {
        Ok(x) => x,
        Err(e) => {
            return Err(e);
        },
    };
    let endpoint = issue_endpoint(resource, issue_key);
    let d = trimmed(due);
    let due_text = if chars_of(d.as_str()).len() == 0 {
        None
    } else {
        Some(d)
    };
    Ok(IssueUpdate {
        action: "Jira課題の更新".to_owned(),
        endpoint,
        access_token: session.tokens.access_token.clone(),
        summary: trimmed(summary),
        description: text_to_adf(description),
        due: due_text,
        original_estimate: jira_duration(estimate_seconds),
    })
}

/// A worklog, ready to be sent with `POST`.
pub struct WorklogEntry {
    /// What the request does, for its failure message.
    pub action: String,
    pub endpoint: String,
    pub access_token: String,
    /// When the work started, in Jira's timestamp notation.
    pub started: String,
    pub time_spent_seconds: i64,
}

/// The date and time `chrono::NaiveDateTime::parse_from_str` reads from
/// `text` in `format`, as year, month, day, hour, minute and second; none
/// where it refuses the text.
pub uninterp spec fn parsed_datetime(text: Seq<char>, format: Seq<char>) -> Option<
    (i32, u32, u32, u32, u32, u32),
>;

/// Reads a date and time with `chrono::NaiveDateTime::parse_from_str` and
/// takes its parts with the `Datelike` and `Timelike` accessors. The
/// contract claims only that the parts are those `parsed_datetime` names.
#[verifier::external_body]
fn parse_datetime(text: &str, format: &str) -> (r: Option<(i32, u32, u32, u32, u32, u32)>)
    ensures
        r == parsed_datetime(text@, format@),
{
    match chrono::NaiveDateTime::parse_from_str(text, format) {
        Ok(t) => Some((t.year(), t.month(), t.day(), t.hour(), t.minute(), t.second())),
        Err(_) => None,
    }
}

/// `k` zeros.
pub open spec fn zeros(k: nat) -> Seq<char>
    decreases k,
{
    if k == 0 {
        seq![]
    } else {
        zeros((k - 1) as nat).push('0')
    }
}

/// A number in decimal, zero-padded on the left to `width` digits.
pub open spec fn padded(n: nat, width: nat) -> Seq<char> {
    let d = decimal(n);
    if d.len() < width {
        zeros((width - d.len()) as nat) + d
    } else {
        d
    }
}

/// A year as `chrono` writes `%Y`: four digits for the years 0 to 9999, and
/// otherwise a sign and at least four digits.
pub open spec fn year_text(y: int) -> Seq<char> {
    if 0 <= y <= 9999 {
        padded(y as nat, 4)
    } else if y < 0 {
        seq!['-'] + padded((-y) as nat, 4)
    } else {
        seq!['+'] + padded(y as nat, 4)
    }
}

/// Whether a text is an offset from UTC as `chrono` writes `%z`: a sign and
/// four digits (hours and minutes).
pub open spec fn offset_text(o: Seq<char>) -> bool {
    &&& o.len() == 5
    &&& (o[0] == '+' || o[0] == '-')
    &&& all_digits(o.drop_first())
}

/// Whether `t` is the start of a worklog at the wall-clock time `p` (year,
/// month, day, hour, minute, second) in Jira's notation
/// `%Y-%m-%dT%H:%M:%S.000%z`: that date and time, then the offset of the
/// time zone it was placed in.
pub open spec fn start_text(p: (i32, u32, u32, u32, u32, u32), t: Seq<char>) -> bool {
    let head = year_text(p.0 as int) + seq!['-'] + padded(p.1 as nat, 2) + seq!['-'] + padded(
        p.2 as nat,
        2,
    ) + seq!['T'] + padded(p.3 as nat, 2) + seq![':'] + padded(p.4 as nat, 2) + seq![':'] + padded(
        p.5 as nat,
        2,
    ) + ".000"@;
    &&& t.len() == head.len() + 5
    &&& t.take(head.len() as int) == head
    &&& offset_text(t.skip(head.len() as int))
}

/// The earliest instant a wall-clock time names in the machine's time zone
/// (`NaiveDate::from_ymd_opt` and `and_hms_opt`, then
/// `chrono::Local.from_local_datetime(..).earliest()`), written with
/// `format`. Which offset the time zone gives, and whether the time exists
/// there at all, rest on the machine, so the contract claims only what holds
/// in any zone: the instant keeps the wall-clock date and time it was given,
/// so the text is that date and time, zero nanoseconds, and a `%z` offset
/// (`write_year`, `write_two` and `OffsetFormat::format` in chrono's
/// `format/formatting.rs`). `format` is that one notation.
#[verifier::external_body]
fn local_time_text(p: (i32, u32, u32, u32, u32, u32), format: &str) -> (r: Option<String>)
    requires
        format@ == "%Y-%m-%dT%H:%M:%S.000%z"@,
    ensures
        r matches Some(t) ==> start_text(p, t@),
{
    let naive = match chrono::NaiveDate::from_ymd_opt(p.0, p.1, p.2) {
        Some(d) => d.and_hms_opt(p.3, p.4, p.5),
        None => None,
    };
    match naive {
        Some(n) => match chrono::Local.from_local_datetime(&n).earliest() {
            Some(t) => Some(t.format(format).to_string()),
            None => None,
        },
        None => None,
    }
}

/// The text the start of a worklog is read from: the trimmed date, a space
/// and the trimmed time.
pub open spec fn started_input(date: Seq<char>, time: Seq<char>) -> Seq<char> {
    trim(date) + seq![' '] + trim(time)
}

/// The address of an issue's worklogs.
pub open spec fn worklog_endpoint_text(site_id: Seq<char>, issue_key: Seq<char>) -> Seq<char> {
    issue_endpoint_text(site_id, issue_key) + "/worklog"@
}

/// Whether `minutes` is a worklog length the form accepts.
pub open spec fn minutes_ok(minutes: i32) -> bool {
    1 <= minutes <= 1440
}

/// Whether `e` logs `minutes` on `issue_key` of the session's first site,
/// started at `started`.
pub open spec fn worklog_is(
    e: WorklogEntry,
    session: SavedSession,
    issue_key: Seq<char>,
    started: Seq<char>,
    minutes: i32,
) -> bool {
    &&& e.action@ == "Jira作業時間の登録"@
    &&& e.endpoint@ == worklog_endpoint_text(session.resources@[0].id@, issue_key)
    &&& e.access_token@ == session.tokens.access_token@
    &&& e.started@ == started
    &&& e.time_spent_seconds == minutes * 60
}

/// The worklog once its start is known: fails on a length out of range, on
/// a start that could not be placed in local time, and on a session with no
/// site, in that order.
pub fn worklog_entry(session: &SavedSession, issue_key: &str, started: Option<String>, minutes: i32) -> (r:
    Result<WorklogEntry, String>)
    ensures
        !minutes_ok(minutes) ==> (r matches Err(m) && m@ == "作業時間は1〜1440分で指定してください。"@),
        minutes_ok(minutes) && started is None ==> (r matches Err(m) && m@
            == "指定された開始日時をローカル時刻へ変換できません。"@),
        minutes_ok(minutes) && started is Some && session.resources@.len() == 0 ==> (r matches Err(m)
            && m@ == "利用可能なJiraサイトがありません。"@),
        minutes_ok(minutes) && started is Some && session.resources@.len() > 0 ==> (r matches Ok(e)
            && worklog_is(e, *session, issue_key@, started->0@, minutes)),
{
    if minutes < 1 || minutes > 1440 {
        return Err("作業時間は1〜1440分で指定してください。".to_owned());
    }
    let started = match started {
        Some(s) => s,
        None => {
            return Err("指定された開始日時をローカル時刻へ変換できません。".to_owned());
        },
    };
    let resource = match primary_resource(session) {
        Ok(x) => x,
        Err(e) => {
            return Err(e);
        },
    };
    let base = issue_endpoint(resource, issue_key);
    let mut out = chars_of(base.as_str());
    push_str(&mut out, "/worklog");
    Ok(WorklogEntry {
        action: "Jira作業時間の登録".to_owned(),
        endpoint: string_of(&out),
        access_token: session.tokens.access_token.clone(),
        started,
        time_spent_seconds: (minutes as i64) * 60,
    })
}

/// Plans a worklog of `minutes` on an issue, started at `date` `time`
/// (`YYYY-MM-DD`, `HH:MM`, local time). Fails on a length out of range, on a
/// start that does not read, on a start with no local instant, and on a
/// session with no site.
pub fn add_worklog(session: &SavedSession, issue_key: &str, date: &str, time: &str, minutes: i32) -> (r:
    Result<WorklogEntry, String>)
    ensures
        !minutes_ok(minutes) <==> (r matches Err(m) && m@ == "作業時間は1〜1440分で指定してください。"@),
        minutes_ok(minutes) && parsed_datetime(started_input(date@, time@), "%Y-%m-%d %H:%M"@) is None
            ==> (r matches Err(m) && m@ == "開始日時は YYYY-MM-DD と HH:MM の形式で入力してください。"@),
        minutes_ok(minutes) && parsed_datetime(started_input(date@, time@), "%Y-%m-%d %H:%M"@) is Some
            ==> {
            let p = parsed_datetime(started_input(date@, time@), "%Y-%m-%d %H:%M"@)->0;
            ||| r matches Err(m) && m@ == "指定された開始日時をローカル時刻へ変換できません。"@
            ||| r matches Err(m) && m@ == "利用可能なJiraサイトがありません。"@ && session.resources@.len()
                == 0
            ||| r matches Ok(e) && session.resources@.len() > 0 && worklog_is(
                e,
                *session,
                issue_key@,
                e.started@,
                minutes,
            ) && start_text(p, e.started@)
        },
{
    proof {
        reveal_strlit("作業時間は1〜1440分で指定してください。");
        reveal_strlit("開始日時は YYYY-MM-DD と HH:MM の形式で入力してください。");
        reveal_strlit("指定された開始日時をローカル時刻へ変換できません。");
        reveal_strlit("利用可能なJiraサイトがありません。");
        assert("作業時間は1〜1440分で指定してください。"@[0] != "開始日時は YYYY-MM-DD と HH:MM の形式で入力してください。"@[0]);
        assert("作業時間は1〜1440分で指定してください。"@[0] != "指定された開始日時をローカル時刻へ変換できません。"@[0]);
        assert("作業時間は1〜1440分で指定してください。"@[0] != "利用可能なJiraサイトがありません。"@[0]);
    }
    if minutes < 1 || minutes > 1440 {
        return Err("作業時間は1〜1440分で指定してください。".to_owned());
    }
    let mut input = chars_of(trimmed(date).as_str());
    input.push(' ');
    let t = trimmed(time);
    push_str(&mut input, t.as_str());
    let text = string_of(&input);
    assert(text@ == started_input(date@, time@));
    let parts = match parse_datetime(text.as_str(), "%Y-%m-%d %H:%M") {
        Some(p) => p,
        None => {
            return Err("開始日時は YYYY-MM-DD と HH:MM の形式で入力してください。".to_owned());
        },
    };
    let started = local_time_text(parts, "%Y-%m-%dT%H:%M:%S.000%z");
    let r = worklog_entry(session, issue_key, started, minutes);
    proof {
        if r is Ok {
            assert(worklog_is(r->Ok_0, *session, issue_key@, started->0@, minutes));
        }
    }
    r
}

} // verus!
