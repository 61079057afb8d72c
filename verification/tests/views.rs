use jira_lens::demo::demo_issues;
use jira_lens::issue::{normalize_custom_field, CustomField};
use jira_lens::keys::KeySet;
use jira_lens::rows::{filtered_rows, to_row};
use jira_lens::tree::build_tree_nodes;
use jira_lens::duration::parse_duration;

fn keys_of(list: &[&str]) -> KeySet {
    let mut set = KeySet::new();
    for k in list {
        set.insert((*k).to_owned());
    }
    set
}

#[test]
fn parent_filter_includes_all_descendants() {
    let items = demo_issues();
    let keys: Vec<String> = filtered_rows(&items, "", "APP-102", "", &[], "", &KeySet::new())
        .into_iter()
        .map(|row| row.key)
        .collect();
    assert_eq!(keys, ["APP-102", "APP-105"]);
}

#[test]
fn search_covers_description_and_comments() {
    let items = demo_issues();
    assert_eq!(filtered_rows(&items, "キーボード", "", "", &[], "", &KeySet::new()).len(), 1);
    assert_eq!(filtered_rows(&items, "仮想リスト", "", "", &[], "", &KeySet::new()).len(), 1);
}

#[test]
fn tree_contains_nested_real_issue_models() {
    let tree = build_tree_nodes(&demo_issues(), "", &KeySet::new(), &KeySet::new());
    let nested = tree.iter().find(|node| node.key.as_str() == "APP-105").unwrap();
    assert_eq!(nested.depth, 2);
}

#[test]
fn collapsed_tree_hides_descendants() {
    let collapsed = keys_of(&["APP-102"]);
    let tree = build_tree_nodes(&demo_issues(), "", &collapsed, &KeySet::new());
    assert!(tree.iter().any(|node| node.key.as_str() == "APP-102"));
    assert!(!tree.iter().any(|node| node.key.as_str() == "APP-105"));
}

#[test]
fn issue_type_filter_keeps_tree_ancestors_as_context() {
    let items = demo_issues();
    let rows = filtered_rows(&items, "", "", "タスク", &[], "", &KeySet::new());
    assert_eq!(rows.len(), 5);
    let tree = build_tree_nodes(&items, "タスク", &KeySet::new(), &KeySet::new());
    assert!(tree.iter().any(|node| node.key.as_str() == "APP-100"));
    assert!(tree.iter().any(|node| node.key.as_str() == "APP-101"));
    assert!(!tree.iter().any(|node| node.key.as_str() == "OPS-20"));
}

#[test]
fn issue_type_filter_keeps_descendants_but_respects_collapse() {
    let tree = build_tree_nodes(
        &demo_issues(),
        "タスク",
        &keys_of(&["APP-100", "APP-102"]),
        &KeySet::new(),
    );
    assert!(!tree.iter().any(|node| node.key.as_str() == "APP-105"));
}

#[test]
fn issue_type_tree_includes_all_descendant_types() {
    let tree = build_tree_nodes(&demo_issues(), "エピック", &KeySet::new(), &KeySet::new());
    assert!(tree.iter().any(|node| node.key.as_str() == "APP-105"));
}

#[test]
fn favorites_are_pinned_before_regular_roots() {
    let tree = build_tree_nodes(&demo_issues(), "", &KeySet::new(), &keys_of(&["APP-105"]));
    assert_eq!(tree[0].key.as_str(), "APP-105");
    assert!(tree[0].favorite);
    assert_eq!(tree[1].key.as_str(), "APP-100");
}

#[test]
fn tree_has_no_synthetic_all_issues_row() {
    let tree = build_tree_nodes(&demo_issues(), "", &KeySet::new(), &KeySet::new());
    assert!(tree.iter().all(|node| !node.key.is_empty()));
}

#[test]
fn table_collapse_hides_all_descendants() {
    let rows = filtered_rows(&demo_issues(), "", "", "", &[], "", &keys_of(&["APP-100"]));
    assert!(rows.iter().any(|row| row.key.as_str() == "APP-100"));
    assert!(!rows.iter().any(|row| row.key.as_str() == "APP-105"));
}

#[test]
fn incomplete_status_filter_excludes_done() {
    let rows = filtered_rows(&demo_issues(), "", "", "", &[], "完了以外", &KeySet::new());
    assert!(rows.iter().all(|row| row.status.as_str() != "完了"));
}

#[test]
fn table_rows_include_hierarchy_depth() {
    let rows = filtered_rows(&demo_issues(), "", "", "", &[], "", &KeySet::new());
    assert_eq!(rows.iter().find(|row| row.key.as_str() == "APP-105").unwrap().depth, 2);
}

#[test]
fn custom_boolean_and_flag_fields_keep_checkbox_metadata() {
    let mut item = demo_issues().remove(0);
    item.set_custom_value("bool".into(), "true".into());
    item.set_custom_value("flag".into(), "Impediment".into());
    let fields = vec![
        CustomField {
            id: "bool".into(),
            name: "Boolean".into(),
            field_type: "boolean".into(),
            editable: true,
        },
        CustomField {
            id: "flag".into(),
            name: "Flagged".into(),
            field_type: "flag".into(),
            editable: true,
        },
    ];
    let row = to_row(&item, std::slice::from_ref(&item), &fields, &KeySet::new());
    let cells = row.custom_cells.iter().collect::<Vec<_>>();
    assert!(cells.iter().all(|cell| cell.boolean && cell.editable));
    assert!(cells.iter().all(|cell| cell.checked));
}

#[test]
fn cached_flagged_array_field_is_migrated_to_editable_flag() {
    let field = normalize_custom_field(CustomField {
        id: "customfield_10021".into(),
        name: "Flagged".into(),
        field_type: "array".into(),
        editable: false,
    });
    assert_eq!(field.field_type, "flag");
    assert!(field.editable);
}

#[test]
fn cached_named_checkbox_array_is_migrated_to_editable_checkbox() {
    let field = normalize_custom_field(CustomField {
        id: "customfield_10041".into(),
        name: "Checkbox Test Field".into(),
        field_type: "array".into(),
        editable: false,
    });
    assert_eq!(field.field_type, "checkbox");
    assert!(field.editable);
}

#[test]
fn parses_jira_style_durations() {
    assert_eq!(parse_duration("1d 2h 30m").unwrap(), 37_800);
    assert_eq!(parse_duration("0h").unwrap(), 0);
    assert!(parse_duration("90").is_err());
    assert!(parse_duration("-1h").is_err());
}
