//! The issue table: which issues are listed under the current filters and
//! what each row shows.

use vstd::prelude::*;
use crate::forest::{display_order, hierarchical_issues};
use crate::hierarchy::{belongs_to_subtree, chain_stops, hidden_by_collapsed, hidden_under, in_subtree, issue_depth};
use crate::issue::{custom_lookup, CustomField, Issue};
use crate::keys::KeySet;
use crate::text::{ascii_lower, chars_of, chars_eq, contains_chars, contains_seq, lowercase, str_eq, to_lowercase, trim, trim_chars};

verus! {

/// One custom field's cell in a row.
#[derive(Clone, Debug)]
pub struct CustomCell {
    pub field_id: String,
    pub value: String,
    pub editable: bool,
    pub boolean: bool,
    pub checkbox: bool,
    pub checked: bool,
}

/// One row of the issue table.
#[derive(Clone, Debug)]
pub struct IssueRow {
    pub key: String,
    pub summary: String,
    pub status: String,
    pub status_done: bool,
    pub issue_type: String,
    pub assignee: String,
    pub due: String,
    pub estimate: String,
    pub spent: String,
    pub remaining: String,
    pub parent: String,
    pub depth: i32,
    pub has_children: bool,
    pub expanded: bool,
    pub custom_cells: Vec<CustomCell>,
}

/// A text with ASCII letters in lower case, as `str::to_ascii_lowercase` gives it.
pub open spec fn ascii_lowercase(s: Seq<char>) -> Seq<char> {
    s.map_values(|c: char| ascii_lower(c))
}

/// Whether a field type shows as a tick box for a true/false value.
pub open spec fn is_boolean_type(t: Seq<char>) -> bool {
    t == "boolean"@ || t == "flag"@
}

/// Whether a custom value counts as ticked: flags and checkboxes when they
/// hold any non-blank value, other fields when they read `true` or `1`.
pub open spec fn value_checked(field_type: Seq<char>, value: Option<Seq<char>>) -> bool {
    match value {
        None => false,
        Some(v) => if field_type == "flag"@ || field_type == "checkbox"@ {
            trim(v).len() > 0
        } else {
            ascii_lowercase(trim(v)) == "true"@ || ascii_lowercase(trim(v)) == "1"@
        },
    }
}

/// Whether `c` is the cell of field `f` for an issue.
pub open spec fn cell_is(c: CustomCell, f: CustomField, issue: Issue) -> bool {
    let v = custom_lookup(issue.custom_values@, f.id@);
    &&& c.field_id@ == f.id@
    &&& c.value@ == match v {
        Some(x) => x,
        None => seq![],
    }
    &&& c.editable == f.editable
    &&& c.boolean == is_boolean_type(f.field_type@)
    &&& c.checkbox == (f.field_type@ == "checkbox"@)
    &&& c.checked == value_checked(f.field_type@, v)
}

/// Whether some issue records `key` as its parent.
pub open spec fn has_child(all: Seq<Issue>, key: Seq<char>) -> bool {
    exists|j: int| 0 <= j < all.len() && #[trigger] all[j].parent@ == key
}

/// Whether `d` is an issue's depth: the step at which the walk up its parent
/// chain first stops.
pub open spec fn depth_is(all: Seq<Issue>, issue: Issue, d: int) -> bool {
    &&& d >= 0
    &&& chain_stops(all, issue.parent@, d as nat, all.len())
    &&& forall|j: nat| j < d ==> !chain_stops(all, issue.parent@, j, all.len())
}

/// Whether `r` is the table row of `issue`.
pub open spec fn row_is(
    r: IssueRow,
    issue: Issue,
    all: Seq<Issue>,
    fields: Seq<CustomField>,
    collapsed: Set<Seq<char>>,
) -> bool {
    &&& r.key@ == issue.key@
    &&& r.summary@ == issue.summary@
    &&& r.status@ == issue.status@
    &&& r.status_done == issue.status_done
    &&& r.issue_type@ == issue.issue_type@
    &&& r.assignee@ == issue.assignee@
    &&& r.due@ == issue.due@
    &&& r.estimate@ == issue.estimate@
    &&& r.spent@ == issue.spent@
    &&& r.remaining@ == issue.remaining@
    &&& r.parent@ == issue.parent@
    &&& depth_is(all, issue, r.depth as int)
    &&& r.has_children == has_child(all, issue.key@)
    &&& r.expanded == !collapsed.contains(issue.key@)
    &&& r.custom_cells@.len() == fields.len()
    &&& forall|k: int| 0 <= k < fields.len() ==> cell_is(#[trigger] r.custom_cells@[k], fields[k], issue)
}

fn ascii_lower_chars(v: &Vec<char>) -> (r: Vec<char>)
    ensures
        r@ == ascii_lowercase(v@),
{
    let mut r: Vec<char> = Vec::new();
    let mut i: usize = 0;
    while i < v.len()
        invariant
            i <= v.len(),
            r@ == ascii_lowercase(v@.take(i as int)),
        decreases v.len() - i,
    {
        let c = v[i];
        let u = c as u32;
        let l = if 65 <= u && u <= 90 {
            ((u + 32) as u8) as char
        } else {
            c
        };
        r.push(l);
        i = i + 1;
        assert(r@ =~= ascii_lowercase(v@.take(i as int)));
    }
    assert(v@.take(i as int) =~= v@);
    r
}

fn literal_chars(s: &str) -> (r: Vec<char>)
    ensures
        r@ == s@,
{
    chars_of(s)
}

fn cell_of(f: &CustomField, issue: &Issue) -> (c: CustomCell)
    ensures
        cell_is(c, *f, *issue),
{
    let v = issue.custom_value(f.id.as_str());
    let is_flag = str_eq(f.field_type.as_str(), "flag");
    let is_checkbox = str_eq(f.field_type.as_str(), "checkbox");
    let checked = match &v {
        None => false,
        Some(x) => {
            let t = trim_chars(&chars_of(x.as_str()));
            if is_flag || is_checkbox {
                t.len() > 0
            } else {
                let l = ascii_lower_chars(&t);
                chars_eq(&l, &literal_chars("true")) || chars_eq(&l, &literal_chars("1"))
            }
        },
    };
    CustomCell {
        field_id: f.id.clone(),
        value: match v {
            Some(x) => x,
            None => String::new(),
        },
        editable: f.editable,
        boolean: str_eq(f.field_type.as_str(), "boolean") || is_flag,
        checkbox: is_checkbox,
        checked,
    }
}

/// The table row of an issue.
pub fn to_row(issue: &Issue, all: &[Issue], visible_custom_fields: &[CustomField], collapsed: &KeySet) -> (r: IssueRow)
    requires
        all@.len() <= i32::MAX,
    ensures
        row_is(r, *issue, all@, visible_custom_fields@, collapsed@),
{
    let mut has_children = false;
    let mut j: usize = 0;
    while j < all.len()
        invariant
            j <= all.len(),
            has_children == exists|q: int| 0 <= q < j && #[trigger] all@[q].parent@ == issue.key@,
        decreases all.len() - j,
    {
        if all[j].parent == issue.key {
            has_children = true;
        }
        j = j + 1;
    }
    let mut cells: Vec<CustomCell> = Vec::new();
    let mut k: usize = 0;
    while k < visible_custom_fields.len()
        invariant
            k <= visible_custom_fields.len(),
            cells@.len() == k,
            forall|q: int| 0 <= q < k ==> cell_is(#[trigger] cells@[q], visible_custom_fields@[q], *issue),
        decreases visible_custom_fields.len() - k,
    {
        cells.push(cell_of(&visible_custom_fields[k], issue));
        k = k + 1;
    }
    IssueRow {
        key: issue.key.clone(),
        summary: issue.summary.clone(),
        status: issue.status.clone(),
        status_done: issue.status_done,
        issue_type: issue.issue_type.clone(),
        assignee: issue.assignee.clone(),
        due: issue.due.clone(),
        estimate: issue.estimate.clone(),
        spent: issue.spent.clone(),
        remaining: issue.remaining.clone(),
        parent: issue.parent.clone(),
        depth: issue_depth(issue, all),
        has_children,
        expanded: !collapsed.contains(&issue.key),
        custom_cells: cells,
    }
}


/// Whether an issue passes the status filter: no filter, all states, "all
/// but done" for an issue not done, or exactly its status.
pub open spec fn status_matches(item: Issue, status_filter: Seq<char>) -> bool {
    ||| status_filter.len() == 0
    ||| status_filter == "すべての状態"@
    ||| (status_filter == "完了以外"@ && !item.status_done)
    ||| item.status@ == status_filter
}

/// Whether an issue matches the lower-cased search text: an empty one
/// matches all; else it must occur in the lower-cased key, summary,
/// description or comments.
pub open spec fn text_matches(item: Issue, needle: Seq<char>) -> bool {
    ||| needle.len() == 0
    ||| contains_seq(lowercase(item.key@), needle)
    ||| contains_seq(lowercase(item.summary@), needle)
    ||| contains_seq(lowercase(item.description@), needle)
    ||| contains_seq(lowercase(item.comments@), needle)
}

/// Whether the issue at position `i` is listed under the filters.
pub open spec fn row_selected(
    all: Seq<Issue>,
    i: int,
    query: Seq<char>,
    parent: Seq<char>,
    issue_type: Seq<char>,
    status_filter: Seq<char>,
    collapsed: Set<Seq<char>>,
) -> bool {
    &&& in_subtree(all, all[i].key@, parent)
    &&& (issue_type.len() == 0 || all[i].issue_type@ == issue_type)
    &&& status_matches(all[i], status_filter)
    &&& !hidden_under(all, all[i], collapsed)
    &&& text_matches(all[i], lowercase(query))
}

/// The entries of `s` that satisfy `pred`, in order.
pub open spec fn select(s: Seq<int>, pred: spec_fn(int) -> bool) -> Seq<int>
    decreases s.len(),
{
    if s.len() == 0 {
        seq![]
    } else if pred(s.last()) {
        select(s.drop_last(), pred).push(s.last())
    } else {
        select(s.drop_last(), pred)
    }
}

fn lower_chars(s: &String) -> (r: Vec<char>)
    ensures
        r@ == lowercase(s@),
{
    let l = to_lowercase(s.as_str());
    chars_of(l.as_str())
}

/// The table rows under the current search text, parent, type, status and
/// collapsed nodes, in display order.
pub fn filtered_rows(
    all: &[Issue],
    query: &str,
    parent: &str,
    issue_type: &str,
    visible_custom_fields: &[CustomField],
    status_filter: &str,
    collapsed: &KeySet,
) -> (r: Vec<IssueRow>)
    requires
        all@.len() < i32::MAX,
    ensures
        ({
            let sel = select(
                display_order(all@),
                |i: int|
                    row_selected(all@, i, query@, parent@, issue_type@, status_filter@, collapsed@),
            );
            &&& r@.len() == sel.len()
            &&& forall|k: int|
                0 <= k < sel.len() ==> row_is(
                    #[trigger] r@[k],
                    all@[sel[k]],
                    all@,
                    visible_custom_fields@,
                    collapsed@,
                )
        }),
        rows_listed(r@, all@, query@, parent@, issue_type@, visible_custom_fields@, status_filter@, collapsed@),
{
    let ghost pred = |i: int|
        row_selected(all@, i, query@, parent@, issue_type@, status_filter@, collapsed@);
    let needle = to_lowercase(query);
    let needle_chars = chars_of(needle.as_str());
    let order = hierarchical_issues(all);
    let ghost ov = order@.map_values(|i: usize| i as int);
    let mut rows: Vec<IssueRow> = Vec::new();
    let mut t: usize = 0;
    while t < order.len()
        invariant
            t <= order@.len(),
            all@.len() < i32::MAX,
            ov == order@.map_values(|i: usize| i as int),
            ov == display_order(all@),
            forall|q: int| 0 <= q < order@.len() ==> #[trigger] order@[q] < all@.len(),
            needle_chars@ == lowercase(query@),
            pred == (|i: int|
                row_selected(all@, i, query@, parent@, issue_type@, status_filter@, collapsed@)),
            rows@.len() == select(ov.take(t as int), pred).len(),
            forall|k: int|
                0 <= k < rows@.len() ==> row_is(
                    #[trigger] rows@[k],
                    all@[select(ov.take(t as int), pred)[k]],
                    all@,
                    visible_custom_fields@,
                    collapsed@,
                ),
        decreases order@.len() - t,
    {
        let x = order[t];
        let item = &all[x];
        assert(ov.take(t + 1).drop_last() =~= ov.take(t as int));
        assert(ov.take(t + 1).last() == x as int);
        let in_tree = belongs_to_subtree(item, parent, all);
        let type_ok = issue_type.is_empty() || str_eq(item.issue_type.as_str(), issue_type);
        let status_ok = status_filter.is_empty() || str_eq(status_filter, "すべての状態") || (str_eq(
            status_filter,
            "完了以外",
        ) && !item.status_done) || str_eq(item.status.as_str(), status_filter);
        let hidden = hidden_by_collapsed(item, all, collapsed);
        let text_ok = needle_chars.len() == 0 || contains_chars(&lower_chars(&item.key), &needle_chars)
            || contains_chars(&lower_chars(&item.summary), &needle_chars) || contains_chars(
            &lower_chars(&item.description),
            &needle_chars,
        ) || contains_chars(&lower_chars(&item.comments), &needle_chars);
        if in_tree && type_ok && status_ok && !hidden && text_ok {
            assert(pred(x as int));
            let row = to_row(item, all, visible_custom_fields, collapsed);
            let ghost before = select(ov.take(t as int), pred);
            let ghost old_rows = rows@;
            rows.push(row);
            assert(select(ov.take(t + 1), pred) == before.push(x as int));
            assert forall|k: int| 0 <= k < rows@.len() implies row_is(
                #[trigger] rows@[k],
                all@[select(ov.take(t + 1), pred)[k]],
                all@,
                visible_custom_fields@,
                collapsed@,
            ) by {
                if k < before.len() {
                    assert(rows@[k] == old_rows[k]);
                }
            }
        } else {
            assert(!pred(x as int));
            assert(select(ov.take(t + 1), pred) == select(ov.take(t as int), pred));
        }
        t = t + 1;
    }
    assert(ov.take(t as int) =~= ov);
    rows
}

/// Whether `r` are the table rows of the issues listed under the filters,
/// in display order.
pub open spec fn rows_listed(
    r: Seq<IssueRow>,
    all: Seq<Issue>,
    query: Seq<char>,
    parent: Seq<char>,
    issue_type: Seq<char>,
    fields: Seq<CustomField>,
    status_filter: Seq<char>,
    collapsed: Set<Seq<char>>,
) -> bool {
    let sel = select(
        display_order(all),
        |i: int| row_selected(all, i, query, parent, issue_type, status_filter, collapsed),
    );
    &&& r.len() == sel.len()
    &&& forall|k: int| 0 <= k < sel.len() ==> row_is(#[trigger] r[k], all[sel[k]], all, fields, collapsed)
}

/// The status choice "all states" filters nothing: the rows listed under it
/// are the rows listed with no status filter, every other filter alike.
pub proof fn law_all_states_filters_nothing(
    all: Seq<Issue>,
    query: Seq<char>,
    parent: Seq<char>,
    issue_type: Seq<char>,
    fields: Seq<CustomField>,
    collapsed: Set<Seq<char>>,
    every: Seq<IssueRow>,
    unfiltered: Seq<IssueRow>,
)
    requires
        rows_listed(every, all, query, parent, issue_type, fields, "すべての状態"@, collapsed),
        rows_listed(unfiltered, all, query, parent, issue_type, fields, ""@, collapsed),
    ensures
        every.len() == unfiltered.len(),
        forall|k: int| 0 <= k < every.len() ==> {
            let a = #[trigger] every[k];
            let b = unfiltered[k];
            &&& a.key@ == b.key@
            &&& a.summary@ == b.summary@
            &&& a.status@ == b.status@
            &&& a.due@ == b.due@
            &&& a.depth == b.depth
            &&& a.has_children == b.has_children
            &&& a.expanded == b.expanded
        },
{
    reveal_strlit("");
    let p1 = |i: int| row_selected(all, i, query, parent, issue_type, "すべての状態"@, collapsed);
    let p2 = |i: int| row_selected(all, i, query, parent, issue_type, ""@, collapsed);
    assert(p1 =~= p2);
    let sel = select(display_order(all), p2);
    assert forall|k: int| 0 <= k < every.len() implies {
        let a = #[trigger] every[k];
        let b = unfiltered[k];
        &&& a.key@ == b.key@
        &&& a.summary@ == b.summary@
        &&& a.status@ == b.status@
        &&& a.due@ == b.due@
        &&& a.depth == b.depth
        &&& a.has_children == b.has_children
        &&& a.expanded == b.expanded
    } by {
        assert(row_is(every[k], all[sel[k]], all, fields, collapsed));
        assert(row_is(unfiltered[k], all[sel[k]], all, fields, collapsed));
        let issue = all[sel[k]];
        let (da, db) = (every[k].depth as int, unfiltered[k].depth as int);
        if da < db {
            assert(!chain_stops(all, issue.parent@, da as nat, all.len()));
        } else if db < da {
            assert(!chain_stops(all, issue.parent@, db as nat, all.len()));
        }
    }
}

/// Every entry `select` keeps satisfies the predicate.
proof fn lemma_select_satisfies(s: Seq<int>, pred: spec_fn(int) -> bool)
    ensures
        forall|k: int| 0 <= k < select(s, pred).len() ==> pred(#[trigger] select(s, pred)[k]),
    decreases s.len(),
{
    if s.len() > 0 {
        lemma_select_satisfies(s.drop_last(), pred);
        let prev = select(s.drop_last(), pred);
        if pred(s.last()) {
            assert forall|k: int| 0 <= k < select(s, pred).len() implies pred(#[trigger] select(s, pred)[k]) by {
                if k < prev.len() {
                    assert(select(s, pred)[k] == prev[k]);
                }
            }
        }
    }
}

/// Every listed row passes the type and status filters: with a type chosen
/// its type is that one, and with a status chosen other than "all states"
/// its status is that one, or, for "all but done", it is not done.
pub proof fn law_listed_rows_pass_filters(
    r: Seq<IssueRow>,
    all: Seq<Issue>,
    query: Seq<char>,
    parent: Seq<char>,
    issue_type: Seq<char>,
    fields: Seq<CustomField>,
    status_filter: Seq<char>,
    collapsed: Set<Seq<char>>,
)
    requires
        rows_listed(r, all, query, parent, issue_type, fields, status_filter, collapsed),
    ensures
        forall|k: int| 0 <= k < r.len() ==> {
            let row = #[trigger] r[k];
            &&& issue_type.len() == 0 || row.issue_type@ == issue_type
            &&& status_filter.len() == 0 || status_filter == "すべての状態"@ || row.status@ == status_filter || (
            status_filter == "完了以外"@ && !row.status_done)
        },
{
    let pred = |i: int| row_selected(all, i, query, parent, issue_type, status_filter, collapsed);
    let sel = select(display_order(all), pred);
    lemma_select_satisfies(display_order(all), pred);
    assert forall|k: int| 0 <= k < r.len() implies {
        let row = #[trigger] r[k];
        &&& issue_type.len() == 0 || row.issue_type@ == issue_type
        &&& status_filter.len() == 0 || status_filter == "すべての状態"@ || row.status@ == status_filter || (
        status_filter == "完了以外"@ && !row.status_done)
    } by {
        assert(pred(sel[k]));
        assert(row_is(r[k], all[sel[k]], all, fields, collapsed));
    }
}

/// The choice "all but done" lists what no status filter lists, less the
/// issues that are done (an issue whose status reads "完了以外" itself
/// aside).
pub proof fn law_open_work_filter(
    all: Seq<Issue>,
    i: int,
    query: Seq<char>,
    parent: Seq<char>,
    issue_type: Seq<char>,
    collapsed: Set<Seq<char>>,
)
    ensures
        row_selected(all, i, query, parent, issue_type, "完了以外"@, collapsed) == (row_selected(
            all,
            i,
            query,
            parent,
            issue_type,
            ""@,
            collapsed,
        ) && (!all[i].status_done || all[i].status@ == "完了以外"@)),
{
    reveal_strlit("");
    reveal_strlit("完了以外");
    reveal_strlit("すべての状態");
    assert("完了以外"@.len() != "すべての状態"@.len());
}

} // verus!
