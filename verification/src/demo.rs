//! The demonstration issues shown before the first sync with Jira.

use vstd::prelude::*;
use crate::duration::{duration_text, law_duration_roundtrip, lemma_one_part, parts_end_ascii};
use crate::issue::{built_from, issue, Issue};
use crate::text::decimal;

verus! {

proof fn lemma_hours(t: Seq<char>, n: nat)
    requires
        t == decimal(n).push('h'),
        n <= 1000,
    ensures
        parts_end_ascii(t),
{
    lemma_one_part(t, n, 'h');
}

/// Seven sample issues: the epic `APP-100` with five tasks under it (one of
/// them, `APP-105`, under `APP-102`), and the separate epic `OPS-20`.
pub fn demo_issues() -> (r: Vec<Issue>)
    ensures
        r@.len() == 7,
        built_from(r@[0], "APP-100"@, "デスクトップ版 v1"@, "進行中"@, "Hiroshi"@, "2026-09-12"@, "40h"@, "12h"@, ""@, "Jiraを軽快に閲覧・更新するデスクトップアプリ"@, "MVPの対象範囲を確定"@),
        built_from(r@[1], "APP-101"@, "親子ツリー表示"@, "完了"@, "Hiroshi"@, "2026-08-24"@, "8h"@, "7h 30m"@, "APP-100"@, "Epic、親タスク、サブタスクを一つのツリーで表示"@, "仮想リストを使用する"@),
        built_from(r@[2], "APP-102"@, "課題一覧テーブル"@, "進行中"@, "Mika"@, "2026-08-28"@, "12h"@, "4h"@, "APP-100"@, "Excelのように見通しのよい一覧を作る"@, "列の表示切替を追加"@),
        built_from(r@[3], "APP-105"@, "日付セルの編集"@, "未着手"@, "Mika"@, "2026-08-27"@, "3h"@, "0h"@, "APP-102"@, "カレンダーから期限を入力できるようにする"@, "キーボード操作も後で対応"@),
        built_from(r@[4], "APP-103"@, "時間記録フォーム"@, "レビュー"@, "Sora"@, "2026-08-30"@, "6h"@, "5h"@, "APP-100"@, "開始日時と作業時間を少ない操作で登録"@, "15分単位の候補が便利"@),
        built_from(r@[5], "APP-104"@, "バーンダウン"@, "未着手"@, "Sora"@, "2026-09-05"@, "8h"@, "0h"@, "APP-100"@, "任意の親課題以下を対象に残時間を可視化"@, "見積変更も履歴に反映する"@),
        built_from(r@[6], "OPS-20"@, "リリース準備"@, "未着手"@, "Hiroshi"@, "2026-09-10"@, "10h"@, "0h"@, ""@, "macOSとWindows向けに署名済み成果物を作成"@, "CI構築が必要"@),
{
    proof {
        reveal_with_fuel(decimal, 3);
        reveal_strlit("40h");
        reveal_strlit("12h");
        reveal_strlit("8h");
        reveal_strlit("7h 30m");
        reveal_strlit("4h");
        reveal_strlit("3h");
        reveal_strlit("0h");
        reveal_strlit("6h");
        reveal_strlit("5h");
        reveal_strlit("10h");
        assert("40h"@ =~= decimal(40).push('h'));
        lemma_hours("40h"@, 40);
        assert("12h"@ =~= decimal(12).push('h'));
        lemma_hours("12h"@, 12);
        assert("8h"@ =~= decimal(8).push('h'));
        lemma_hours("8h"@, 8);
        assert("4h"@ =~= decimal(4).push('h'));
        lemma_hours("4h"@, 4);
        assert("3h"@ =~= decimal(3).push('h'));
        lemma_hours("3h"@, 3);
        assert("0h"@ =~= decimal(0).push('h'));
        lemma_hours("0h"@, 0);
        assert("6h"@ =~= decimal(6).push('h'));
        lemma_hours("6h"@, 6);
        assert("5h"@ =~= decimal(5).push('h'));
        lemma_hours("5h"@, 5);
        assert("10h"@ =~= decimal(10).push('h'));
        lemma_hours("10h"@, 10);
        law_duration_roundtrip(27000);
        assert("7h 30m"@ =~= duration_text(Some(27000i64)));
    }
    let mut r: Vec<Issue> = Vec::new();
    r.push(issue("APP-100", "デスクトップ版 v1", "進行中", "Hiroshi", "2026-09-12", "40h", "12h", "", "Jiraを軽快に閲覧・更新するデスクトップアプリ", "MVPの対象範囲を確定"));
    r.push(issue("APP-101", "親子ツリー表示", "完了", "Hiroshi", "2026-08-24", "8h", "7h 30m", "APP-100", "Epic、親タスク、サブタスクを一つのツリーで表示", "仮想リストを使用する"));
    r.push(issue("APP-102", "課題一覧テーブル", "進行中", "Mika", "2026-08-28", "12h", "4h", "APP-100", "Excelのように見通しのよい一覧を作る", "列の表示切替を追加"));
    r.push(issue("APP-105", "日付セルの編集", "未着手", "Mika", "2026-08-27", "3h", "0h", "APP-102", "カレンダーから期限を入力できるようにする", "キーボード操作も後で対応"));
    r.push(issue("APP-103", "時間記録フォーム", "レビュー", "Sora", "2026-08-30", "6h", "5h", "APP-100", "開始日時と作業時間を少ない操作で登録", "15分単位の候補が便利"));
    r.push(issue("APP-104", "バーンダウン", "未着手", "Sora", "2026-09-05", "8h", "0h", "APP-100", "任意の親課題以下を対象に残時間を可視化", "見積変更も履歴に反映する"));
    r.push(issue("OPS-20", "リリース準備", "未着手", "Hiroshi", "2026-09-10", "10h", "0h", "", "macOSとWindows向けに署名済み成果物を作成", "CI構築が必要"));
    r
}

} // verus!
