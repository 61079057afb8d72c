use jira_lens::adf::{adf_to_text, text_to_adf};
use jira_lens::calendar::{calendar_days, calendar_label, validate_due, CalendarState};
use jira_lens::demo::demo_issues;
use jira_lens::duration::{duration_parts_ascii, format_duration, jira_duration, parse_duration};
use jira_lens::edits::{
    add_visible_column, changed_edits, check_edits, checkbox_options, checked_text, edit_draft_cell,
    edit_draft_custom, edits_can_be_checked, issue_browse_url, parent_keys, remove_visible_column,
    type_filter_value,
};
use jira_lens::forest::hierarchical_issues;
use jira_lens::hierarchy::{belongs_to_subtree, hidden_by_collapsed, issue_depth};
use jira_lens::issue::{CustomField, Issue};
use jira_lens::keys::KeySet;
use jira_lens::options::{
    available_custom_fields, custom_columns, favorite_keys, issue_type_options, select_issue,
    sorted_unique, status_filter_options, widest_key,
};
use jira_lens::tree::build_tree_nodes;

fn field(id: &str, name: &str) -> CustomField {
    CustomField { id: id.into(), name: name.into(), field_type: "string".into(), editable: false }
}

#[test]
fn months_move_across_years_and_back() {
    let mut s = CalendarState { year: 2025, month: 1 };
    s.move_month(-1);
    assert_eq!((s.year, s.month), (2024, 12));
    s.move_month(1);
    assert_eq!((s.year, s.month), (2025, 1));
    s.move_month(12);
    assert_eq!((s.year, s.month), (2026, 1));
    s.move_month(-25);
    assert_eq!((s.year, s.month), (2023, 12));
    let mut t = CalendarState { year: -1, month: 3 };
    t.move_month(-3);
    assert_eq!((t.year, t.month), (-2, 12));
}

#[test]
fn month_view_starts_on_the_sunday_before_the_first() {
    let s = CalendarState { year: 2025, month: 3 };
    assert_eq!(calendar_label(&s), "2025年 3月");
    let days = calendar_days(&s).unwrap();
    assert_eq!(days.len(), 42);
    assert_eq!(days[0].date, "2025-02-23");
    assert_eq!(days[0].label, "23");
    assert!(!days[0].current_month);
    assert_eq!(days[6].date, "2025-03-01");
    assert!(days[6].current_month);
    assert_eq!((days[6].row, days[6].column), (0, 6));
    assert_eq!((days[41].row, days[41].column), (5, 6));
    assert_eq!(days[41].date, "2025-04-05");
    let today = CalendarState::today();
    assert!((1..=12).contains(&today.month));
}

#[test]
fn month_view_before_year_one() {
    let s = CalendarState { year: -1, month: 1 };
    let days = calendar_days(&s).unwrap();
    assert_eq!(days[0].date, "-0002-12-27");
    assert_eq!(days[0].label, "27");
    assert!(!days[0].current_month);
    assert_eq!(days[5].date, "-0001-01-01");
    assert!(days[5].current_month);
    assert_eq!(days[41].date, "-0001-02-06");
}

#[test]
fn month_view_needs_every_day_in_range() {
    assert!(calendar_days(&CalendarState { year: 262142, month: 11 }).is_some());
    assert!(calendar_days(&CalendarState { year: 262142, month: 12 }).is_none());
    assert!(calendar_days(&CalendarState { year: 262143, month: 1 }).is_none());
    assert!(calendar_days(&CalendarState { year: 2025, month: 13 }).is_none());
}

#[test]
fn due_dates_are_blank_or_dates() {
    assert!(validate_due("").is_ok());
    assert!(validate_due("  ").is_ok());
    assert!(validate_due(" 2026-02-28 ").is_ok());
    assert_eq!(
        validate_due("2026-02-30").err().unwrap(),
        "期限はカレンダーから選択するか YYYY-MM-DD で指定してください。"
    );
}

#[test]
fn filter_choices_list_each_value_once_in_order() {
    let items = demo_issues();
    let (types, selected) = issue_type_options(&items, "タスク");
    assert_eq!(types, ["すべてのタイプ", "エピック", "タスク"]);
    assert_eq!(selected, 2);
    let (_, none) = issue_type_options(&items, "バグ");
    assert_eq!(none, 0);
    let (statuses, selected) = status_filter_options(&items, "完了以外");
    assert_eq!(statuses, ["すべての状態", "完了以外", "レビュー", "完了", "未着手", "進行中"]);
    assert_eq!(selected, 1);
    let mut shuffled = demo_issues();
    shuffled.reverse();
    assert_eq!(status_filter_options(&shuffled, "").0, statuses);
    assert_eq!(sorted_unique(&vec!["b".into(), "a".into(), "b".into()]), ["a", "b"]);
}

#[test]
fn detail_pane_shows_the_issue() {
    let items = demo_issues();
    let d = select_issue(&items[3]);
    assert_eq!(d.key, "APP-105");
    assert_eq!(d.remaining, "3h");
    assert_eq!(d.worklog_remaining, "3h");
    assert_eq!(d.comments, "キーボード操作も後で対応");
}

#[test]
fn custom_columns_follow_the_chosen_ids() {
    let fields = vec![field("f1", "Team"), field("f2", "Sprint"), field("f3", "Points")];
    let visible = vec!["f3".to_owned(), "missing".to_owned(), "f1".to_owned()];
    let columns = custom_columns(&fields, &visible);
    let names: Vec<&str> = columns.iter().map(|c| c.name.as_str()).collect();
    assert_eq!(names, ["Points", "Team"]);
    assert_eq!(available_custom_fields(&fields, &visible), ["項目を追加...", "Sprint"]);

    let mut shown = vec!["f1".to_owned()];
    add_visible_column(&fields, &mut shown, "Sprint");
    add_visible_column(&fields, &mut shown, "Sprint");
    add_visible_column(&fields, &mut shown, "項目を追加...");
    add_visible_column(&fields, &mut shown, "Nothing");
    assert_eq!(shown, ["f1", "f2"]);
    shown.push("f1".into());
    remove_visible_column(&mut shown, "f1");
    assert_eq!(shown, ["f2"]);
}

#[test]
fn key_width_favorites_and_collapsing_everything() {
    let items = demo_issues();
    assert_eq!(widest_key(&items), Some(7));
    assert_eq!(widest_key(&[]), None);
    let mut favorites = KeySet::new();
    favorites.insert("APP-105".into());
    let tree = build_tree_nodes(&items, "", &KeySet::new(), &favorites);
    let found = favorite_keys(&tree);
    assert!(found.contains_str("APP-105"));
    assert!(!found.contains_str("APP-100"));
    let parents = parent_keys(&items);
    let mut listed = parents.to_vec();
    listed.sort();
    assert_eq!(listed, ["APP-100", "APP-102"]);
}

#[test]
fn browse_addresses_and_type_choices() {
    assert_eq!(
        issue_browse_url("https://example.atlassian.net//", "APP-1"),
        "https://example.atlassian.net/browse/APP-1"
    );
    assert_eq!(type_filter_value("すべてのタイプ"), "");
    assert_eq!(type_filter_value("タスク"), "タスク");
}

#[test]
fn checkbox_editor_reads_and_writes_the_field_text() {
    let options = vec!["A".to_owned(), "B".to_owned(), "C".to_owned()];
    let choices = checkbox_options(&options, " C , ,A");
    let checked: Vec<bool> = choices.iter().map(|c| c.checked).collect();
    assert_eq!(checked, [true, false, true]);
    assert_eq!(checked_text(&choices), "A, C");
    assert_eq!(checked_text(&checkbox_options(&options, "")), "");
}

#[test]
fn only_changed_edits_are_checked_and_saved() {
    let originals = demo_issues();
    let mut draft: Vec<Issue> = originals.clone();
    edit_draft_cell(&mut draft, "APP-102", "summary", "  ".into());
    edit_draft_cell(&mut draft, "APP-103", "estimate", "7h".into());
    edit_draft_custom(&mut draft, "APP-104", "summary".into(), "custom".into());
    edit_draft_cell(&mut draft, "NOPE-1", "summary", "x".into());
    assert_eq!(draft[4].estimate, "7h");
    assert_eq!(draft[5].summary, "バーンダウン");
    assert_eq!(draft[5].custom_value("summary"), Some("custom".into()));
    let changed = changed_edits(&originals, &draft);
    assert_eq!(changed, [2, 4, 5]);
    assert!(edits_can_be_checked(&draft, &changed));
    assert_eq!(check_edits(&draft, &changed).err().unwrap(), "APP-102: タイトルは空にできません。");
    edit_draft_cell(&mut draft, "APP-102", "summary", "ok".into());
    edit_draft_cell(&mut draft, "APP-102", "duedate", "tomorrow".into());
    assert_eq!(
        check_edits(&draft, &changed).err().unwrap(),
        "APP-102: 期限はカレンダーから選択するか YYYY-MM-DD で指定してください。"
    );
    edit_draft_cell(&mut draft, "APP-102", "duedate", "".into());
    edit_draft_cell(&mut draft, "APP-102", "remaining", "5x".into());
    assert_eq!(
        check_edits(&draft, &changed).err().unwrap(),
        "APP-102: 残余時間: 時間の単位は d、h、m を使用してください。"
    );
    edit_draft_cell(&mut draft, "APP-102", "remaining", "1h".into());
    assert!(check_edits(&draft, &changed).is_ok());
    edit_draft_cell(&mut draft, "APP-102", "estimate", "時間".into());
    assert!(!edits_can_be_checked(&draft, &changed));
}

#[test]
fn hierarchy_subtrees_and_hiding() {
    let items = demo_issues();
    assert!(belongs_to_subtree(&items[3], "APP-105", &items));
    assert!(belongs_to_subtree(&items[3], "APP-100", &items));
    assert!(!belongs_to_subtree(&items[3], "OPS-20", &items));
    let mut collapsed = KeySet::new();
    collapsed.insert("APP-102".into());
    assert!(hidden_by_collapsed(&items[3], &items, &collapsed));
    assert!(!hidden_by_collapsed(&items[2], &items, &collapsed));
    assert_eq!(issue_depth(&items[3], &items), 2);
    assert_eq!(issue_depth(&items[0], &items), 0);
}

#[test]
fn toggling_a_key_twice_restores_the_set() {
    let mut s = KeySet::new();
    s.insert("A".into());
    s.toggle("B".into());
    assert!(s.contains_str("B"));
    s.toggle("B".into());
    assert!(!s.contains_str("B"));
    assert!(s.contains_str("A"));
}

#[test]
fn durations_read_back_what_is_written() {
    for seconds in [0i64, 60, 3600, 5400, 86400 + 7200 + 1800] {
        let text = format_duration(Some(seconds));
        assert_eq!(parse_duration(&text).unwrap(), seconds);
    }
    assert_eq!(format_duration(Some(45 * 60)), "45m");
    assert_eq!(format_duration(Some(7200)), "2h");
    assert_eq!(jira_duration(-5), "0m");
    assert_eq!(jira_duration(60), "1m");
    let sent = jira_duration(61);
    assert_eq!(sent, "2m");
    assert_eq!(parse_duration(&sent).unwrap(), 120);
    assert!(duration_parts_ascii("1h 30m"));
    assert!(!duration_parts_ascii("1時"));
    assert_eq!(parse_duration("").unwrap(), 0);
    assert_eq!(parse_duration("2w").err().unwrap(), "時間の単位は d、h、m を使用してください。");
    assert_eq!(parse_duration("h").err().unwrap(), "時間は 2h 30m の形式で入力してください。");
    assert_eq!(parse_duration("-1h").err().unwrap(), "時間に負の値は指定できません。");
    assert_eq!(parse_duration("9223372036854775807m 1m").err().unwrap(), "時間が大きすぎます。");
}

#[test]
fn plain_text_survives_the_document_roundtrip() {
    assert_eq!(adf_to_text(&text_to_adf("first\nsecond line")), "first\nsecond line");
    // A blank line becomes an empty paragraph, which holds no text.
    assert_eq!(adf_to_text(&text_to_adf("first\n\nthird line")), "first\nthird line");
    assert_eq!(adf_to_text(&text_to_adf("  padded  \n")), "padded");
}

#[test]
fn durations_joined_by_a_space_add_up() {
    let a = "1d";
    let b = "2h 30m";
    let joined = format!("{a} {b}");
    assert_eq!(
        parse_duration(&joined).unwrap(),
        parse_duration(a).unwrap() + parse_duration(b).unwrap()
    );
}

#[test]
fn favorites_only_add_pinned_nodes_in_front() {
    let items = demo_issues();
    let mut favorites = KeySet::new();
    favorites.insert("OPS-20".into());
    favorites.insert("APP-105".into());
    favorites.insert("NOPE-1".into());
    let with = build_tree_nodes(&items, "", &KeySet::new(), &favorites);
    let without = build_tree_nodes(&items, "", &KeySet::new(), &KeySet::new());
    assert_eq!(with.len(), without.len() + 2);
    assert_eq!(with[0].key, "APP-105");
    assert_eq!(with[1].key, "OPS-20");
    for (n, m) in with[2..].iter().zip(without.iter()) {
        assert_eq!((&n.key, &n.label, n.depth, n.has_children, n.expanded), (&m.key, &m.label, m.depth, m.has_children, m.expanded));
        assert_eq!(n.favorite, n.key == "APP-105" || n.key == "OPS-20");
        assert!(!m.favorite);
    }
}

#[test]
fn display_order_lists_each_issue_once() {
    let items = demo_issues();
    let mut order = hierarchical_issues(&items);
    assert_eq!(order, [0, 1, 2, 3, 4, 5, 6]);
    let mut reversed = demo_issues();
    reversed.reverse();
    order = hierarchical_issues(&reversed);
    let keys: Vec<&str> = order.iter().map(|&i| reversed[i].key.as_str()).collect();
    assert_eq!(keys, ["APP-100", "APP-101", "APP-102", "APP-105", "APP-103", "APP-104", "OPS-20"]);
}
