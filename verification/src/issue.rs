//! The issue model shown in the tree and table, custom field metadata, and
//! the demonstration data shown before the first sync.

use vstd::prelude::*;
use crate::duration::{duration_seconds, parse_duration, parts_end_ascii};
use crate::text::{contains_seq, eq_ascii_case, eq_ignore_ascii_case, lowercase, str_contains, str_eq, to_lowercase};

verus! {

/// The value of one custom field on an issue.
#[derive(Clone, Debug)]
pub struct CustomValue {
    pub field_id: String,
    pub value: String,
}

/// A Jira issue as the viewer holds it.
#[derive(Clone, Debug)]
pub struct Issue {
    pub key: String,
    pub summary: String,
    pub status: String,
    pub status_done: bool,
    pub issue_type: String,
    pub assignee: String,
    pub due: String,
    pub estimate: String,
    pub spent: String,
    pub remaining: String,
    pub estimate_seconds: i64,
    pub spent_seconds: i64,
    pub remaining_seconds: i64,
    pub parent: String,
    pub description: String,
    pub comments: String,
    pub custom_values: Vec<CustomValue>,
}

/// A custom field that can be shown as a table column.
#[derive(Clone, Debug, PartialEq, Eq)]
pub struct CustomField {
    pub id: String,
    pub name: String,
    pub field_type: String,
    pub editable: bool,
}

/// Whether two issues agree on everything but their custom values.
pub open spec fn same_but_custom(a: Issue, b: Issue) -> bool {
    &&& a.key == b.key
    &&& a.summary == b.summary
    &&& a.status == b.status
    &&& a.status_done == b.status_done
    &&& a.issue_type == b.issue_type
    &&& a.assignee == b.assignee
    &&& a.due == b.due
    &&& a.estimate == b.estimate
    &&& a.spent == b.spent
    &&& a.remaining == b.remaining
    &&& a.estimate_seconds == b.estimate_seconds
    &&& a.spent_seconds == b.spent_seconds
    &&& a.remaining_seconds == b.remaining_seconds
    &&& a.parent == b.parent
    &&& a.description == b.description
    &&& a.comments == b.comments
}

/// The value stored for a field id: the first entry with that id.
pub open spec fn custom_lookup(vals: Seq<CustomValue>, id: Seq<char>) -> Option<Seq<char>>
    decreases vals.len(),
{
    if vals.len() == 0 {
        None
    } else if vals[0].field_id@ == id {
        Some(vals[0].value@)
    } else {
        custom_lookup(vals.drop_first(), id)
    }
}

/// The position of the first entry with a field id, if any.
pub open spec fn custom_position(vals: Seq<CustomValue>, id: Seq<char>) -> Option<int> {
    if exists|i: int| 0 <= i < vals.len() && #[trigger] vals[i].field_id@ == id {
        Some(choose|i: int| 0 <= i < vals.len() && #[trigger] vals[i].field_id@ == id && forall|j: int| 0 <= j < i ==> #[trigger] vals[j].field_id@ != id)
    } else {
        None
    }
}

pub(crate) proof fn lemma_lookup_index(vals: Seq<CustomValue>, id: Seq<char>, i: int)
    requires
        0 <= i < vals.len(),
        vals[i].field_id@ == id,
        forall|j: int| 0 <= j < i ==> #[trigger] vals[j].field_id@ != id,
    ensures
        custom_lookup(vals, id) == Some(vals[i].value@),
    decreases i,
{
    if i > 0 {
        assert forall|j: int| 0 <= j < i - 1 implies #[trigger] vals.drop_first()[j].field_id@ != id by {
            assert(vals.drop_first()[j] == vals[j + 1]);
        }
        lemma_lookup_index(vals.drop_first(), id, i - 1);
    }
}

pub(crate) proof fn lemma_lookup_none(vals: Seq<CustomValue>, id: Seq<char>)
    requires
        forall|j: int| 0 <= j < vals.len() ==> #[trigger] vals[j].field_id@ != id,
    ensures
        custom_lookup(vals, id) is None,
    decreases vals.len(),
{
    if vals.len() > 0 {
        assert forall|j: int| 0 <= j < vals.len() - 1 implies #[trigger] vals.drop_first()[j].field_id@ != id by {
            assert(vals.drop_first()[j] == vals[j + 1]);
        }
        lemma_lookup_none(vals.drop_first(), id);
    }
}

fn find_custom(vals: &Vec<CustomValue>, id: &str) -> (r: Option<usize>)
    ensures
        match r {
            Some(i) => i < vals@.len() && vals@[i as int].field_id@ == id@ && forall|j: int|
                0 <= j < i ==> #[trigger] vals@[j].field_id@ != id@,
            None => forall|j: int| 0 <= j < vals@.len() ==> #[trigger] vals@[j].field_id@ != id@,
        },
{
    let mut i: usize = 0;
    while i < vals.len()
        invariant
            i <= vals.len(),
            forall|j: int| 0 <= j < i ==> #[trigger] vals@[j].field_id@ != id@,
        decreases vals.len() - i,
    {
        if str_eq(vals[i].field_id.as_str(), id) {
            return Some(i);
        }
        i = i + 1;
    }
    None
}

impl Issue {
    /// The value of a custom field, if the issue has one.
    pub fn custom_value(&self, field_id: &str) -> (r: Option<String>)
        ensures
            match custom_lookup(self.custom_values@, field_id@) {
                Some(v) => r matches Some(s) && s@ == v,
                None => r is None,
            },
    {
        match find_custom(&self.custom_values, field_id) {
            Some(i) => {
                proof {
                    lemma_lookup_index(self.custom_values@, field_id@, i as int);
                }
                Some(self.custom_values[i].value.clone())
            },
            None => {
                proof {
                    lemma_lookup_none(self.custom_values@, field_id@);
                }
                None
            },
        }
    }

    /// Sets a custom field's value, replacing the earlier one.
    pub fn set_custom_value(&mut self, field_id: String, value: String)
        ensures
            custom_lookup(final(self).custom_values@, field_id@) == Some(value@),
            forall|other: Seq<char>| other != field_id@ ==> custom_lookup(final(self).custom_values@, other)
                == custom_lookup(old(self).custom_values@, other),
            same_but_custom(*old(self), *final(self)),
    {
        let ghost before = self.custom_values@;
        let ghost id = field_id@;
        let ghost val = value@;
        match find_custom(&self.custom_values, field_id.as_str()) {
            Some(i) => {
                let ghost old_id = self.custom_values@[i as int].field_id@;
                self.custom_values.set(i, CustomValue { field_id, value });
                proof {
                    let after = self.custom_values@;
                    assert forall|j: int| 0 <= j < i implies #[trigger] after[j].field_id@ != id by {
                        assert(after[j] == before[j]);
                    }
                    lemma_lookup_index(after, id, i as int);
                    assert forall|other: Seq<char>| other != id implies custom_lookup(after, other)
                        == custom_lookup(before, other) by {
                        lemma_lookup_same_except(before, after, i as int, other);
                    }
                }
            },
            None => {
                self.custom_values.push(CustomValue { field_id, value });
                proof {
                    let after = self.custom_values@;
                    assert forall|j: int| 0 <= j < before.len() implies #[trigger] after[j].field_id@ != id by {
                        assert(after[j] == before[j]);
                    }
                    lemma_lookup_index(after, id, before.len() as int);
                    assert forall|other: Seq<char>| other != id implies custom_lookup(after, other)
                        == custom_lookup(before, other) by {
                        lemma_lookup_push(before, after[before.len() as int], other);
                        assert(after =~= before.push(after[before.len() as int]));
                    }
                }
            },
        }
    }
}

proof fn lemma_lookup_same_except(a: Seq<CustomValue>, b: Seq<CustomValue>, i: int, id: Seq<char>)
    requires
        a.len() == b.len(),
        0 <= i < a.len(),
        forall|j: int| 0 <= j < a.len() && j != i ==> #[trigger] b[j] == a[j],
        a[i].field_id@ != id,
        b[i].field_id@ != id,
    ensures
        custom_lookup(b, id) == custom_lookup(a, id),
    decreases a.len(),
{
    if a.len() > 0 {
        if i == 0 {
            assert(a.drop_first() =~= b.drop_first());
        } else {
            assert(b[0] == a[0]);
            assert forall|j: int| 0 <= j < a.len() - 1 && j != i - 1 implies #[trigger] b.drop_first()[j] == a.drop_first()[j] by {
                assert(b[j + 1] == a[j + 1]);
            }
            lemma_lookup_same_except(a.drop_first(), b.drop_first(), i - 1, id);
        }
    }
}

proof fn lemma_lookup_push(a: Seq<CustomValue>, v: CustomValue, id: Seq<char>)
    requires
        v.field_id@ != id,
    ensures
        custom_lookup(a.push(v), id) == custom_lookup(a, id),
    decreases a.len(),
{
    if a.len() > 0 {
        assert(a.push(v).drop_first() =~= a.drop_first().push(v));
        lemma_lookup_push(a.drop_first(), v, id);
    } else {
        assert(a.push(v).drop_first() =~= Seq::<CustomValue>::empty());
        assert(custom_lookup(Seq::<CustomValue>::empty(), id) is None);
    }
}

/// Field names that mark the flag field.
pub open spec fn is_flag_name(n: Seq<char>) -> bool {
    ||| eq_ascii_case(n, "flagged"@)
    ||| n == "フラグ"@
    ||| n == "フラグ付き"@
}

/// Field names that mark a checkbox field.
pub open spec fn is_checkbox_name(n: Seq<char>) -> bool {
    ||| contains_seq(lowercase(n), "checkbox"@)
    ||| contains_seq(n, "チェックボックス"@)
}

/// Whether `r` is the normalized form of `f`: flag fields become editable flags,
/// array fields named as checkboxes become editable checkboxes, and boolean,
/// flag and checkbox fields become editable; anything else stays as it was.
pub open spec fn normalized_as(f: CustomField, r: CustomField) -> bool {
    &&& r.id@ == f.id@
    &&& r.name@ == f.name@
    &&& if is_flag_name(f.name@) {
        r.field_type@ == "flag"@ && r.editable
    } else if is_checkbox_name(f.name@) && f.field_type@ == "array"@ {
        r.field_type@ == "checkbox"@ && r.editable
    } else if f.field_type@ == "boolean"@ || f.field_type@ == "flag"@ || f.field_type@
        == "checkbox"@ {
        r.field_type@ == f.field_type@ && r.editable
    } else {
        r.field_type@ == f.field_type@ && r.editable == f.editable
    }
}

/// Brings a cached custom field's metadata up to date.
pub fn normalize_custom_field(field: CustomField) -> (r: CustomField)
    ensures
        normalized_as(field, r),
{
    let mut field = field;
    let is_flag = eq_ignore_ascii_case(field.name.as_str(), "flagged") || str_eq(
        field.name.as_str(),
        "フラグ",
    ) || str_eq(field.name.as_str(), "フラグ付き");
    let name_lower = to_lowercase(field.name.as_str());
    let is_checkbox = str_contains(name_lower.as_str(), "checkbox") || str_contains(
        field.name.as_str(),
        "チェックボックス",
    );
    let ghost f = field;
    if is_flag {
        field.field_type = "flag".to_owned();
        field.editable = true;
    } else if is_checkbox && str_eq(field.field_type.as_str(), "array") {
        field.field_type = "checkbox".to_owned();
        field.editable = true;
    } else if str_eq(field.field_type.as_str(), "boolean") || str_eq(
        field.field_type.as_str(),
        "flag",
    ) || str_eq(field.field_type.as_str(), "checkbox") {
        field.editable = true;
    }
    field
}

/// Normalizing is idempotent: a normalized field normalizes to itself.
pub proof fn law_normalize_idempotent(f: CustomField, r: CustomField, r2: CustomField)
    requires
        normalized_as(f, r),
        normalized_as(r, r2),
    ensures
        r2.id@ == r.id@,
        r2.name@ == r.name@,
        r2.field_type@ == r.field_type@,
        r2.editable == r.editable,
{
    reveal_strlit("flag");
    reveal_strlit("checkbox");
    reveal_strlit("array");
    assert("checkbox"@.len() != "array"@.len());
}


/// Seconds a duration text stands for, zero where it is refused.
pub open spec fn seconds_or_zero(s: Seq<char>) -> int {
    match duration_seconds(s) {
        Ok(v) => v,
        Err(_) => 0,
    }
}

/// Whether `r` is the issue built from the given texts: a top-level issue is
/// an epic and any other a task, `完了` marks it done, the remaining time
/// starts as the estimate, and it has no custom values.
pub open spec fn built_from(
    r: Issue,
    key: Seq<char>,
    summary: Seq<char>,
    status: Seq<char>,
    assignee: Seq<char>,
    due: Seq<char>,
    estimate: Seq<char>,
    spent: Seq<char>,
    parent: Seq<char>,
    description: Seq<char>,
    comments: Seq<char>,
) -> bool {
    &&& r.key@ == key
    &&& r.summary@ == summary
    &&& r.status@ == status
    &&& r.status_done == (status == "完了"@)
    &&& r.issue_type@ == if parent.len() == 0 {
        "エピック"@
    } else {
        "タスク"@
    }
    &&& r.assignee@ == assignee
    &&& r.due@ == due
    &&& r.estimate@ == estimate
    &&& r.spent@ == spent
    &&& r.remaining@ == estimate
    &&& r.estimate_seconds == seconds_or_zero(estimate)
    &&& r.spent_seconds == seconds_or_zero(spent)
    &&& r.remaining_seconds == seconds_or_zero(estimate)
    &&& r.parent@ == parent
    &&& r.description@ == description
    &&& r.comments@ == comments
    &&& r.custom_values@.len() == 0
}

fn seconds_of(text: &str) -> (r: i64)
    requires
        parts_end_ascii(text@),
    ensures
        r == seconds_or_zero(text@),
{
    match parse_duration(text) {
        Ok(v) => v,
        Err(_) => 0,
    }
}

/// Builds an issue from its texts.
pub fn issue(
    key: &str,
    summary: &str,
    status: &str,
    assignee: &str,
    due: &str,
    estimate: &str,
    spent: &str,
    parent: &str,
    description: &str,
    comments: &str,
) -> (r: Issue)
    requires
        parts_end_ascii(estimate@),
        parts_end_ascii(spent@),
    ensures
        built_from(
            r,
            key@,
            summary@,
            status@,
            assignee@,
            due@,
            estimate@,
            spent@,
            parent@,
            description@,
            comments@,
        ),
{
    Issue {
        key: key.to_owned(),
        summary: summary.to_owned(),
        status: status.to_owned(),
        status_done: str_eq(status, "完了"),
        issue_type: if parent.is_empty() {
            "エピック".to_owned()
        } else {
            "タスク".to_owned()
        },
        assignee: assignee.to_owned(),
        due: due.to_owned(),
        estimate: estimate.to_owned(),
        spent: spent.to_owned(),
        remaining: estimate.to_owned(),
        estimate_seconds: seconds_of(estimate),
        spent_seconds: seconds_of(spent),
        remaining_seconds: seconds_of(estimate),
        parent: parent.to_owned(),
        description: description.to_owned(),
        comments: comments.to_owned(),
        custom_values: Vec::new(),
    }
}

} // verus!
