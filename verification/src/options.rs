//! What the window shows besides the table and the tree: the details of the
//! selected issue, the issue type and status filter choices, and the custom
//! field columns.

use vstd::prelude::*;
use crate::issue::{CustomField, Issue};
use crate::keys::{key_less, key_lt, lemma_key_lt_asymmetric, lemma_key_lt_irreflexive, lemma_key_lt_total, lemma_key_lt_transitive, views, KeySet};
use crate::text::{chars_eq, chars_of};
use crate::tree::TreeNode;

verus! {

/// The fields of the detail pane for one issue.
pub struct SelectedIssue {
    pub key: String,
    pub summary: String,
    pub description: String,
    pub comments: String,
    pub issue_type: String,
    pub status: String,
    pub assignee: String,
    pub due: String,
    pub estimate: String,
    pub spent: String,
    pub remaining: String,
    /// The remaining time shown in the worklog form.
    pub worklog_remaining: String,
}

/// The detail pane for an issue: its fields as they are, the remaining time
/// shown twice (in the pane and in the worklog form).
pub fn select_issue(item: &Issue) -> (r: SelectedIssue)
    ensures
        r.key == item.key,
        r.summary == item.summary,
        r.description == item.description,
        r.comments == item.comments,
        r.issue_type == item.issue_type,
        r.status == item.status,
        r.assignee == item.assignee,
        r.due == item.due,
        r.estimate == item.estimate,
        r.spent == item.spent,
        r.remaining == item.remaining,
        r.worklog_remaining == item.remaining,
{
    SelectedIssue {
        key: item.key.clone(),
        summary: item.summary.clone(),
        description: item.description.clone(),
        comments: item.comments.clone(),
        issue_type: item.issue_type.clone(),
        status: item.status.clone(),
        assignee: item.assignee.clone(),
        due: item.due.clone(),
        estimate: item.estimate.clone(),
        spent: item.spent.clone(),
        remaining: item.remaining.clone(),
        worklog_remaining: item.remaining.clone(),
    }
}

/// Whether each text sorts strictly before the next, in `String` order.
pub open spec fn sorted_strictly(s: Seq<Seq<char>>) -> bool {
    forall|a: int, b: int| 0 <= a < b < s.len() ==> key_lt(#[trigger] s[a], #[trigger] s[b])
}

proof fn lemma_insert_sorted(s: Seq<Seq<char>>, p: int, x: Seq<char>)
    requires
        sorted_strictly(s),
        0 <= p <= s.len(),
        forall|q: int| 0 <= q < p ==> key_lt(#[trigger] s[q], x),
        p < s.len() ==> !key_lt(s[p], x) && s[p] != x,
    ensures
        sorted_strictly(s.insert(p, x)),
{
    let t = s.insert(p, x);
    if p < s.len() {
        lemma_key_lt_total(s[p], x);
    }
    assert forall|a: int, b: int| 0 <= a < b < t.len() implies key_lt(#[trigger] t[a], #[trigger] t[b]) by {
        if b < p {
            assert(t[a] == s[a] && t[b] == s[b]);
        } else if b == p {
            assert(t[a] == s[a]);
        } else if a == p {
            assert(t[b] == s[b - 1]);
            if b - 1 > p {
                lemma_key_lt_transitive(x, s[p], s[b - 1]);
            }
        } else if a < p {
            assert(t[a] == s[a] && t[b] == s[b - 1]);
        } else {
            assert(t[a] == s[a - 1] && t[b] == s[b - 1]);
        }
    }
}

proof fn lemma_insert_to_set(s: Seq<Seq<char>>, p: int, x: Seq<char>)
    requires
        0 <= p <= s.len(),
    ensures
        s.insert(p, x).to_set() == s.to_set().insert(x),
{
    let t = s.insert(p, x);
    assert forall|y: Seq<char>| t.to_set().contains(y) <==> s.to_set().insert(x).contains(y) by {
        if t.contains(y) {
            let k = choose|k: int| 0 <= k < t.len() && t[k] == y;
            if k < p {
                assert(s[k] == y);
            } else if k > p {
                assert(s[k - 1] == y);
            }
        }
        if s.contains(y) {
            let k = choose|k: int| 0 <= k < s.len() && s[k] == y;
            if k < p {
                assert(t[k] == y);
            } else {
                assert(t[k + 1] == y);
            }
        }
        if y == x {
            assert(t[p] == x);
        }
    }
    assert(t.to_set() =~= s.to_set().insert(x));
}

proof fn lemma_push_to_set(s: Seq<Seq<char>>, x: Seq<char>)
    ensures
        s.push(x).to_set() == s.to_set().insert(x),
{
    assert(s.push(x) =~= s.insert(s.len() as int, x));
    lemma_insert_to_set(s, s.len() as int, x);
}

/// The distinct texts of a list, in `String` order, as sorting and then
/// dropping repeats gives them.
pub fn sorted_unique(values: &Vec<String>) -> (r: Vec<String>)
    ensures
        sorted_strictly(views(r@)),
        views(r@).to_set() == views(values@).to_set(),
{
    let mut out: Vec<String> = Vec::new();
    let mut i: usize = 0;
    assert(views(values@.take(0)).to_set() =~= views(out@).to_set());
    while i < values.len()
        invariant
            i <= values@.len(),
            sorted_strictly(views(out@)),
            views(out@).to_set() == views(values@.take(i as int)).to_set(),
        decreases values@.len() - i,
    {
        let cv = chars_of(values[i].as_str());
        let ghost ov = views(out@);
        let mut p: usize = 0;
        loop
            invariant
                p <= out@.len(),
                ov == views(out@),
                cv@ == values@[i as int]@,
                forall|q: int| 0 <= q < p ==> key_lt(#[trigger] ov[q], cv@),
            ensures
                p <= out@.len(),
                forall|q: int| 0 <= q < p ==> key_lt(#[trigger] ov[q], cv@),
                p < out@.len() ==> !key_lt(ov[p as int], cv@),
            decreases out@.len() - p,
        {
            if p >= out.len() {
                break;
            }
            let here = chars_of(out[p].as_str());
            assert(ov[p as int] == out@[p as int]@);
            if !key_less(&here, &cv) {
                break;
            }
            p = p + 1;
        }
        let present = if p < out.len() {
            let here = chars_of(out[p].as_str());
            assert(ov[p as int] == out@[p as int]@);
            chars_eq(&here, &cv)
        } else {
            false
        };
        let ghost x = values@[i as int]@;
        assert(views(values@.take(i + 1)) =~= views(values@.take(i as int)).push(x));
        proof {
            lemma_push_to_set(views(values@.take(i as int)), x);
        }
        if !present {
            let s = values[i].clone();
            out.insert(p, s);
            assert(views(out@) =~= ov.insert(p as int, x));
            proof {
                lemma_insert_sorted(ov, p as int, x);
                lemma_insert_to_set(ov, p as int, x);
            }
        } else {
            assert(ov.to_set().contains(x)) by {
                assert(ov[p as int] == x);
            }
            assert(ov.to_set().insert(x) =~= ov.to_set());
        }
        i = i + 1;
    }
    assert(values@.take(i as int) =~= values@);
    out
}

proof fn lemma_sorted_first_is_least(s: Seq<Seq<char>>, y: Seq<char>)
    requires
        sorted_strictly(s),
        s.len() > 0,
        s.to_set().contains(y),
    ensures
        y == s[0] || key_lt(s[0], y),
{
    let k = choose|k: int| 0 <= k < s.len() && s[k] == y;
    if k > 0 {
        assert(key_lt(s[0], s[k]));
    }
}

/// A set of texts has one strictly sorted listing: two strictly sorted
/// sequences with the same items are equal. So the filter choices depend
/// only on which values occur, not on the order of the issues.
pub proof fn law_sorted_listing_unique(a: Seq<Seq<char>>, b: Seq<Seq<char>>)
    requires
        sorted_strictly(a),
        sorted_strictly(b),
        a.to_set() == b.to_set(),
    ensures
        a == b,
    decreases a.len(),
{
    if a.len() == 0 {
        if b.len() > 0 {
            assert(b.to_set().contains(b[0]));
            assert(a.to_set().contains(b[0]));
        }
        assert(a =~= b);
    } else {
        assert(a.to_set().contains(a[0]));
        assert(b.len() > 0);
        assert(b.to_set().contains(b[0]));
        lemma_sorted_first_is_least(a, b[0]);
        lemma_sorted_first_is_least(b, a[0]);
        if a[0] != b[0] {
            lemma_key_lt_asymmetric(a[0], b[0]);
        }
        let ar = a.drop_first();
        let br = b.drop_first();
        assert(sorted_strictly(ar)) by {
            assert forall|x: int, y: int| 0 <= x < y < ar.len() implies key_lt(#[trigger] ar[x], #[trigger] ar[y]) by {
                assert(ar[x] == a[x + 1] && ar[y] == a[y + 1]);
            }
        }
        assert(sorted_strictly(br)) by {
            assert forall|x: int, y: int| 0 <= x < y < br.len() implies key_lt(#[trigger] br[x], #[trigger] br[y]) by {
                assert(br[x] == b[x + 1] && br[y] == b[y + 1]);
            }
        }
        assert forall|y: Seq<char>| #[trigger] ar.to_set().contains(y) <==> br.to_set().contains(y) by {
            if ar.contains(y) {
                let k = choose|k: int| 0 <= k < ar.len() && ar[k] == y;
                assert(a[k + 1] == y);
                assert(a.to_set().contains(y));
                assert(key_lt(a[0], a[k + 1]));
                lemma_key_lt_irreflexive(a[0]);
                let j = choose|j: int| 0 <= j < b.len() && b[j] == y;
                assert(j != 0);
                assert(br[j - 1] == y);
            }
            if br.contains(y) {
                let k = choose|k: int| 0 <= k < br.len() && br[k] == y;
                assert(b[k + 1] == y);
                assert(b.to_set().contains(y));
                assert(key_lt(b[0], b[k + 1]));
                lemma_key_lt_irreflexive(b[0]);
                let j = choose|j: int| 0 <= j < a.len() && a[j] == y;
                assert(j != 0);
                assert(ar[j - 1] == y);
            }
        }
        assert(ar.to_set() =~= br.to_set());
        law_sorted_listing_unique(ar, br);
        assert(a =~= seq![a[0]] + ar);
        assert(b =~= seq![b[0]] + br);
    }
}

/// The position of the first occurrence of `x`, if any.
pub open spec fn first_index(s: Seq<Seq<char>>, x: Seq<char>) -> Option<int>
    decreases s.len(),
{
    if s.len() == 0 {
        None
    } else if s[0] == x {
        Some(0)
    } else {
        match first_index(s.drop_first(), x) {
            Some(i) => Some(i + 1),
            None => None,
        }
    }
}

/// The position of a choice in a list, or the first choice when it is not
/// there.
pub open spec fn selected_index(s: Seq<Seq<char>>, x: Seq<char>) -> int {
    match first_index(s, x) {
        Some(i) => i,
        None => 0,
    }
}

/// The position of a choice in a list, or 0.
fn position_of(s: &Vec<String>, x: &str) -> (r: usize)
    ensures
        r == selected_index(views(s@), x@),
        r == 0 || r < s@.len(),
{
    let mut i: usize = 0;
    assert(views(s@).skip(0) =~= views(s@));
    while i < s.len()
        invariant
            i <= s@.len(),
            first_index(views(s@), x@) == match first_index(views(s@).skip(i as int), x@) {
                Some(k) => Some(k + i),
                None => None,
            },
        decreases s@.len() - i,
    {
        let ghost t = views(s@).skip(i as int);
        assert(t.drop_first() =~= views(s@).skip(i + 1));
        assert(t[0] == s@[i as int]@);
        if crate::text::str_eq(s[i].as_str(), x) {
            return i;
        }
        i = i + 1;
    }
    assert(views(s@).skip(i as int) =~= Seq::<Seq<char>>::empty());
    0
}

/// The issue types of the issues, in order.
pub open spec fn issue_types(all: Seq<Issue>) -> Seq<Seq<char>> {
    all.map_values(|i: Issue| i.issue_type@)
}

/// The statuses of the issues, in order.
pub open spec fn issue_statuses(all: Seq<Issue>) -> Seq<Seq<char>> {
    all.map_values(|i: Issue| i.status@)
}

/// The issue type choices: `すべてのタイプ` (all types) and then each type
/// that occurs, in `String` order; with the position of the chosen type,
/// or of the first choice when it is not among them.
pub fn issue_type_options(issues: &[Issue], issue_type: &str) -> (r: (Vec<String>, i32))
    requires
        issues@.len() < i32::MAX,
    ensures
        views(r.0@).len() >= 1,
        views(r.0@)[0] == "すべてのタイプ"@,
        sorted_strictly(views(r.0@).drop_first()),
        views(r.0@).drop_first().to_set() == issue_types(issues@).to_set(),
        r.1 == selected_index(views(r.0@), issue_type@),
{
    let mut types: Vec<String> = Vec::new();
    let mut i: usize = 0;
    while i < issues.len()
        invariant
            i <= issues@.len(),
            views(types@) == issue_types(issues@).take(i as int),
        decreases issues@.len() - i,
    {
        let ghost before = views(types@);
        types.push(issues[i].issue_type.clone());
        assert(views(types@) =~= before.push(issues@[i as int].issue_type@));
        i = i + 1;
        assert(issue_types(issues@).take(i as int) =~= issue_types(issues@).take(i - 1).push(issues@[i - 1].issue_type@));
    }
    assert(issue_types(issues@).take(i as int) =~= issue_types(issues@));
    let sorted = sorted_unique(&types);
    let ghost sv = views(sorted@);
    let mut choices: Vec<String> = Vec::new();
    choices.push("すべてのタイプ".to_owned());
    let mut k: usize = 0;
    while k < sorted.len()
        invariant
            k <= sorted@.len(),
            sv == views(sorted@),
            views(choices@) == seq!["すべてのタイプ"@] + sv.take(k as int),
        decreases sorted@.len() - k,
    {
        let ghost before = views(choices@);
        choices.push(sorted[k].clone());
        assert(views(choices@) =~= before.push(sv[k as int]));
        k = k + 1;
        assert(seq!["すべてのタイプ"@] + sv.take(k as int) =~= (seq!["すべてのタイプ"@] + sv.take(k - 1)).push(sv[k - 1]));
    }
    assert(sv.take(k as int) =~= sv);
    assert(views(choices@).drop_first() =~= sv);
    proof {
        lemma_distinct_len(sv, issue_types(issues@));
    }
    let index = position_of(&choices, issue_type);
    (choices, index as i32)
}

/// A strictly sorted listing of the items of a sequence is no longer than
/// the sequence.
proof fn lemma_distinct_len(sorted: Seq<Seq<char>>, all: Seq<Seq<char>>)
    requires
        sorted_strictly(sorted),
        sorted.to_set() == all.to_set(),
    ensures
        sorted.len() <= all.len(),
{
    assert(sorted.no_duplicates()) by {
        assert forall|a: int, b: int| 0 <= a < sorted.len() && 0 <= b < sorted.len() && a != b implies sorted[a] != sorted[b] by {
            if a < b {
                assert(key_lt(sorted[a], sorted[b]));
            } else {
                assert(key_lt(sorted[b], sorted[a]));
            }
            lemma_key_lt_irreflexive(sorted[a]);
        }
    }
    assert forall|i: int| 0 <= i < sorted.len() implies all.contains(#[trigger] sorted[i]) by {
        assert(sorted.to_set().contains(sorted[i]));
        assert(all.to_set().contains(sorted[i]));
    }
    crate::keys::lemma_distinct_within(sorted, all);
}

/// The status filter choices: `すべての状態` (all), `完了以外` (not done), and
/// then each status that occurs, in `String` order; with the position of
/// the active filter, or of the first choice when it is not among them.
pub fn status_filter_options(issues: &[Issue], active: &str) -> (r: (Vec<String>, i32))
    requires
        issues@.len() < i32::MAX - 1,
    ensures
        views(r.0@).len() >= 2,
        views(r.0@)[0] == "すべての状態"@,
        views(r.0@)[1] == "完了以外"@,
        sorted_strictly(views(r.0@).skip(2)),
        views(r.0@).skip(2).to_set() == issue_statuses(issues@).to_set(),
        r.1 == selected_index(views(r.0@), active@),
{
    let mut statuses: Vec<String> = Vec::new();
    let mut i: usize = 0;
    while i < issues.len()
        invariant
            i <= issues@.len(),
            views(statuses@) == issue_statuses(issues@).take(i as int),
        decreases issues@.len() - i,
    {
        let ghost before = views(statuses@);
        statuses.push(issues[i].status.clone());
        assert(views(statuses@) =~= before.push(issues@[i as int].status@));
        i = i + 1;
        assert(issue_statuses(issues@).take(i as int) =~= issue_statuses(issues@).take(i - 1).push(issues@[i - 1].status@));
    }
    assert(issue_statuses(issues@).take(i as int) =~= issue_statuses(issues@));
    let sorted = sorted_unique(&statuses);
    let ghost sv = views(sorted@);
    let ghost head = seq!["すべての状態"@, "完了以外"@];
    let mut choices: Vec<String> = Vec::new();
    choices.push("すべての状態".to_owned());
    choices.push("完了以外".to_owned());
    assert(views(choices@) =~= head + sv.take(0));
    let mut k: usize = 0;
    while k < sorted.len()
        invariant
            k <= sorted@.len(),
            sv == views(sorted@),
            head == seq!["すべての状態"@, "完了以外"@],
            views(choices@) == head + sv.take(k as int),
        decreases sorted@.len() - k,
    {
        let ghost before = views(choices@);
        choices.push(sorted[k].clone());
        assert(views(choices@) =~= before.push(sv[k as int]));
        k = k + 1;
        assert(head + sv.take(k as int) =~= (head + sv.take(k - 1)).push(sv[k - 1]));
    }
    assert(sv.take(k as int) =~= sv);
    assert(views(choices@).skip(2) =~= sv);
    proof {
        lemma_distinct_len(sv, issue_statuses(issues@));
    }
    let index = position_of(&choices, active);
    (choices, index as i32)
}

/// An equal copy of a custom field.
fn copy_field(f: &CustomField) -> (r: CustomField)
    ensures
        r == *f,
{
    CustomField {
        id: f.id.clone(),
        name: f.name.clone(),
        field_type: f.field_type.clone(),
        editable: f.editable,
    }
}

/// The first field with an id.
pub open spec fn field_with_id(fields: Seq<CustomField>, id: Seq<char>) -> Option<CustomField>
    decreases fields.len(),
{
    if fields.len() == 0 {
        None
    } else if fields[0].id@ == id {
        Some(fields[0])
    } else {
        field_with_id(fields.drop_first(), id)
    }
}

/// The columns shown for the chosen ids: for each id in order, the first
/// field with that id; an id no field has is skipped.
pub open spec fn columns_spec(fields: Seq<CustomField>, ids: Seq<Seq<char>>) -> Seq<CustomField>
    decreases ids.len(),
{
    if ids.len() == 0 {
        seq![]
    } else {
        let rest = columns_spec(fields, ids.drop_last());
        match field_with_id(fields, ids.last()) {
            Some(f) => rest.push(f),
            None => rest,
        }
    }
}

/// The first field with an id.
fn find_field(fields: &[CustomField], id: &str) -> (r: Option<CustomField>)
    ensures
        r == field_with_id(fields@, id@),
{
    let mut i: usize = 0;
    assert(fields@.skip(0) =~= fields@);
    while i < fields.len()
        invariant
            i <= fields@.len(),
            field_with_id(fields@, id@) == field_with_id(fields@.skip(i as int), id@),
        decreases fields@.len() - i,
    {
        let ghost t = fields@.skip(i as int);
        assert(t.drop_first() =~= fields@.skip(i + 1));
        if crate::text::str_eq(fields[i].id.as_str(), id) {
            return Some(copy_field(&fields[i]));
        }
        i = i + 1;
    }
    assert(fields@.skip(i as int) =~= Seq::<CustomField>::empty());
    None
}

/// The custom field columns for the chosen ids, in the order chosen.
pub fn custom_columns(custom_fields: &[CustomField], visible_ids: &[String]) -> (r: Vec<CustomField>)
    ensures
        r@ == columns_spec(custom_fields@, views(visible_ids@)),
{
    let mut out: Vec<CustomField> = Vec::new();
    let mut i: usize = 0;
    while i < visible_ids.len()
        invariant
            i <= visible_ids@.len(),
            out@ == columns_spec(custom_fields@, views(visible_ids@).take(i as int)),
        decreases visible_ids@.len() - i,
    {
        let ghost t = views(visible_ids@).take(i + 1);
        assert(t.drop_last() =~= views(visible_ids@).take(i as int));
        assert(t.last() == visible_ids@[i as int]@);
        match find_field(custom_fields, visible_ids[i].as_str()) {
            Some(f) => {
                out.push(f);
            },
            None => {},
        }
        i = i + 1;
    }
    assert(views(visible_ids@).take(i as int) =~= views(visible_ids@));
    out
}

/// The names of the fields not shown, in order.
pub open spec fn hidden_names(fields: Seq<CustomField>, ids: Seq<Seq<char>>) -> Seq<Seq<char>>
    decreases fields.len(),
{
    if fields.len() == 0 {
        seq![]
    } else {
        let rest = hidden_names(fields.drop_last(), ids);
        if ids.contains(fields.last().id@) {
            rest
        } else {
            rest.push(fields.last().name@)
        }
    }
}

/// The choices for adding a column: `項目を追加...` (add a field), then the
/// name of each field not shown, in order.
pub fn available_custom_fields(custom_fields: &[CustomField], visible_ids: &Vec<String>) -> (r: Vec<String>)
    ensures
        views(r@) == seq!["項目を追加..."@] + hidden_names(custom_fields@, views(visible_ids@)),
{
    let mut out: Vec<String> = Vec::new();
    out.push("項目を追加...".to_owned());
    let ghost ids = views(visible_ids@);
    let mut i: usize = 0;
    assert(views(out@) =~= seq!["項目を追加..."@] + hidden_names(custom_fields@.take(0), ids));
    while i < custom_fields.len()
        invariant
            i <= custom_fields@.len(),
            ids == views(visible_ids@),
            views(out@) == seq!["項目を追加..."@] + hidden_names(custom_fields@.take(i as int), ids),
        decreases custom_fields@.len() - i,
    {
        let ghost t = custom_fields@.take(i + 1);
        assert(t.drop_last() =~= custom_fields@.take(i as int));
        assert(t.last() == custom_fields@[i as int]);
        if !crate::keys::holds(visible_ids, &custom_fields[i].id) {
            let ghost before = views(out@);
            out.push(custom_fields[i].name.clone());
            assert(views(out@) =~= before.push(custom_fields@[i as int].name@));
        }
        i = i + 1;
    }
    assert(custom_fields@.take(i as int) =~= custom_fields@);
    out
}

/// The greatest number of characters in an issue key.
pub open spec fn longest_key(all: Seq<Issue>) -> nat
    decreases all.len(),
{
    if all.len() == 0 {
        0
    } else {
        let rest = longest_key(all.drop_last());
        if all.last().key@.len() > rest {
            all.last().key@.len()
        } else {
            rest
        }
    }
}

/// The greatest number of characters in an issue key, which sets the width
/// of the key column; none for no issues.
pub fn widest_key(issues: &[Issue]) -> (r: Option<usize>)
    ensures
        issues@.len() == 0 <==> r is None,
        r matches Some(n) ==> n == longest_key(issues@),
{
    if issues.len() == 0 {
        return None;
    }
    let mut best: usize = 0;
    let mut i: usize = 0;
    while i < issues.len()
        invariant
            i <= issues@.len(),
            best == longest_key(issues@.take(i as int)),
        decreases issues@.len() - i,
    {
        let ghost t = issues@.take(i + 1);
        assert(t.drop_last() =~= issues@.take(i as int));
        assert(t.last() == issues@[i as int]);
        let n = chars_of(issues[i].key.as_str()).len();
        if n > best {
            best = n;
        }
        i = i + 1;
    }
    assert(issues@.take(i as int) =~= issues@);
    Some(best)
}

/// The keys of the tree nodes marked favorite (nodes without a key aside).
pub open spec fn favorite_key_set(nodes: Seq<TreeNode>) -> Set<Seq<char>> {
    Set::new(
        |k: Seq<char>|
            exists|i: int|
                0 <= i < nodes.len() && nodes[i].favorite && k.len() > 0 && #[trigger] nodes[i].key@
                    == k,
    )
}

/// The keys of the tree nodes marked favorite.
pub fn favorite_keys(nodes: &[TreeNode]) -> (r: KeySet)
    ensures
        r@ == favorite_key_set(nodes@),
{
    let mut set = KeySet::new();
    let mut i: usize = 0;
    while i < nodes.len()
        invariant
            i <= nodes@.len(),
            set@ == favorite_key_set(nodes@.take(i as int)),
        decreases nodes@.len() - i,
    {
        let ghost before = set@;
        if nodes[i].favorite && chars_of(nodes[i].key.as_str()).len() > 0 {
            set.insert(nodes[i].key.clone());
        }
        i = i + 1;
        let ghost t = nodes@.take(i as int);
        assert forall|k: Seq<char>| set@.contains(k) <==> #[trigger] favorite_key_set(t).contains(k) by {
            if favorite_key_set(t).contains(k) {
                let j = choose|j: int| 0 <= j < t.len() && t[j].favorite && k.len() > 0 && #[trigger] t[j].key@ == k;
                if j < i - 1 {
                    assert(nodes@.take(i - 1)[j] == t[j]);
                    assert(favorite_key_set(nodes@.take(i - 1)).contains(k));
                }
            }
            if before.contains(k) {
                let j = choose|j: int| 0 <= j < i - 1 && nodes@.take(i - 1)[j].favorite && k.len() > 0 && #[trigger] nodes@.take(i - 1)[j].key@ == k;
                assert(t[j] == nodes@.take(i - 1)[j]);
            }
            if set@.contains(k) && !before.contains(k) {
                assert(t[i - 1] == nodes@[i - 1]);
            }
        }
        assert(set@ =~= favorite_key_set(t));
    }
    assert(nodes@.take(i as int) =~= nodes@);
    set
}

} // verus!
