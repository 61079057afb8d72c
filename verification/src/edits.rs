//! What the window's handlers decide: the filters and columns chosen, the
//! cells edited in the table, the checkbox editor, and which edits are
//! saved.

use vstd::prelude::*;
use crate::calendar::{date_text_parses, validate_due};
use crate::duration::{duration_parts_ascii, duration_seconds, fault_message, parse_duration, parts_end_ascii};
use crate::issue::{custom_lookup, lemma_lookup_index, lemma_lookup_none, same_but_custom, CustomField, Issue};
use crate::jira::push_str;
use crate::keys::{views, KeySet};
use crate::text::{chars_of, split_on, split_on_char, string_of, str_eq, trim, trim_chars};

verus! {

/// A text without its trailing slashes.
pub open spec fn trim_end_slashes(s: Seq<char>) -> Seq<char>
    decreases s.len(),
{
    if s.len() > 0 && s.last() == '/' {
        trim_end_slashes(s.drop_last())
    } else {
        s
    }
}

/// The page of an issue on its site.
pub open spec fn browse_url_text(site_url: Seq<char>, key: Seq<char>) -> Seq<char> {
    trim_end_slashes(site_url) + "/browse/"@ + key
}

/// The page of an issue on its site: the site's address without trailing
/// slashes, `/browse/` and the key.
pub fn issue_browse_url(site_url: &str, key: &str) -> (r: String)
    ensures
        r@ == browse_url_text(site_url@, key@),
{
    let mut v = chars_of(site_url);
    while v.len() > 0 && v[v.len() - 1] == '/'
        invariant
            trim_end_slashes(v@) == trim_end_slashes(site_url@),
        decreases v@.len(),
    {
        let ghost before = v@;
        v.pop();
        assert(v@ =~= before.drop_last());
    }
    push_str(&mut v, "/browse/");
    push_str(&mut v, key);
    string_of(&v)
}

/// The issue type filter for a choice: none (every type) for
/// `すべてのタイプ`, else the type chosen.
pub fn type_filter_value(selected: &str) -> (r: String)
    ensures
        r@ == if selected@ == "すべてのタイプ"@ {
            seq![]
        } else {
            selected@
        },
{
    if str_eq(selected, "すべてのタイプ") {
        String::new()
    } else {
        selected.to_owned()
    }
}

/// The keys of the issues that some issue names as its parent.
pub open spec fn parent_key_set(all: Seq<Issue>) -> Set<Seq<char>> {
    Set::new(
        |k: Seq<char>|
            exists|i: int, j: int|
                0 <= i < all.len() && 0 <= j < all.len() && #[trigger] all[i].key@ == k
                    && #[trigger] all[j].parent@ == k,
    )
}

/// Whether some issue names `key` as its parent.
fn has_child(all: &[Issue], key: &String) -> (r: bool)
    ensures
        r == exists|j: int| 0 <= j < all@.len() && #[trigger] all@[j].parent@ == key@,
{
    let mut j: usize = 0;
    while j < all.len()
        invariant
            j <= all@.len(),
            forall|k: int| 0 <= k < j ==> #[trigger] all@[k].parent@ != key@,
        decreases all@.len() - j,
    {
        if str_eq(all[j].parent.as_str(), key.as_str()) {
            return true;
        }
        j = j + 1;
    }
    false
}

/// The nodes that collapsing the whole tree closes: every issue that has a
/// child.
pub fn parent_keys(issues: &[Issue]) -> (r: KeySet)
    ensures
        r@ == parent_key_set(issues@),
{
    let mut set = KeySet::new();
    let mut i: usize = 0;
    while i < issues.len()
        invariant
            i <= issues@.len(),
            forall|k: Seq<char>|
                set@.contains(k) <==> exists|a: int, b: int|
                    0 <= a < i && 0 <= b < issues@.len() && #[trigger] issues@[a].key@ == k
                        && #[trigger] issues@[b].parent@ == k,
        decreases issues@.len() - i,
    {
        let ghost before = set@;
        if has_child(issues, &issues[i].key) {
            set.insert(issues[i].key.clone());
        }
        i = i + 1;
        assert forall|k: Seq<char>|
            set@.contains(k) <==> exists|a: int, b: int|
                0 <= a < i && 0 <= b < issues@.len() && #[trigger] issues@[a].key@ == k
                    && #[trigger] issues@[b].parent@ == k by {
            if exists|a: int, b: int|
                0 <= a < i && 0 <= b < issues@.len() && #[trigger] issues@[a].key@ == k
                    && #[trigger] issues@[b].parent@ == k {
                let (a, b) = choose|a: int, b: int|
                    0 <= a < i && 0 <= b < issues@.len() && #[trigger] issues@[a].key@ == k
                        && #[trigger] issues@[b].parent@ == k;
                if a < i - 1 {
                    assert(before.contains(k));
                }
            }
        }
    }
    assert(set@ =~= parent_key_set(issues@));
    set
}

/// The first field with a name.
pub open spec fn field_named(fields: Seq<CustomField>, name: Seq<char>) -> Option<CustomField>
    decreases fields.len(),
{
    if fields.len() == 0 {
        None
    } else if fields[0].name@ == name {
        Some(fields[0])
    } else {
        field_named(fields.drop_first(), name)
    }
}

/// The id of the first field with a name.
fn find_field_named(fields: &[CustomField], name: &str) -> (r: Option<String>)
    ensures
        match field_named(fields@, name@) {
            Some(f) => r == Some(f.id),
            None => r is None,
        },
{
    let mut i: usize = 0;
    assert(fields@.skip(0) =~= fields@);
    while i < fields.len()
        invariant
            i <= fields@.len(),
            field_named(fields@, name@) == field_named(fields@.skip(i as int), name@),
        decreases fields@.len() - i,
    {
        let ghost t = fields@.skip(i as int);
        assert(t.drop_first() =~= fields@.skip(i + 1));
        if str_eq(fields[i].name.as_str(), name) {
            return Some(fields[i].id.clone());
        }
        i = i + 1;
    }
    assert(fields@.skip(i as int) =~= Seq::<CustomField>::empty());
    None
}

/// Shows the field chosen by name as a column, after the shown ones; the
/// prompt entry, an unknown name and a field already shown change nothing.
pub fn add_visible_column(custom_fields: &[CustomField], visible: &mut Vec<String>, name: &str)
    ensures
        name@ == "項目を追加..."@ || field_named(custom_fields@, name@) is None ==> final(visible)@
            == old(visible)@,
        name@ != "項目を追加..."@ && field_named(custom_fields@, name@) is Some ==> {
            let f = field_named(custom_fields@, name@)->0;
            if views(old(visible)@).contains(f.id@) {
                final(visible)@ == old(visible)@
            } else {
                final(visible)@ == old(visible)@.push(f.id)
            }
        },
{
    if str_eq(name, "項目を追加...") {
        return;
    }
    let id = match find_field_named(custom_fields, name) {
        Some(id) => id,
        None => {
            return;
        },
    };
    if !crate::keys::holds(visible, &id) {
        visible.push(id);
    }
}

/// Stops showing a column: every entry of the id leaves the shown list,
/// the others keep their order.
pub fn remove_visible_column(visible: &mut Vec<String>, id: &str)
    ensures
        views(final(visible)@) == views(old(visible)@).filter(|v: Seq<char>| v != id@),
{
    let ghost before = views(visible@);
    let mut kept: Vec<String> = Vec::new();
    let mut i: usize = 0;
    while i < visible.len()
        invariant
            i <= visible@.len(),
            before == views(visible@),
            views(kept@) == before.take(i as int).filter(|v: Seq<char>| v != id@),
        decreases visible@.len() - i,
    {
        let ghost t = before.take(i + 1);
        assert(t.drop_last() =~= before.take(i as int));
        assert(t.last() == visible@[i as int]@);
        proof {
            before.take(i as int).lemma_filter_push(t.last(), |v: Seq<char>| v != id@);
        }
        assert(t =~= before.take(i as int).push(t.last()));
        if !str_eq(visible[i].as_str(), id) {
            let ghost kb = views(kept@);
            kept.push(visible[i].clone());
            assert(views(kept@) =~= kb.push(visible@[i as int]@));
        }
        i = i + 1;
    }
    assert(before.take(i as int) =~= before);
    *visible = kept;
}

/// Whether `n` is `o` with the table cell `field` set to `value`: the
/// summary, due date, estimate or remaining time under those names, and any
/// other name taken as a custom field id.
pub open spec fn cell_set(o: Issue, n: Issue, field: Seq<char>, value: String) -> bool {
    if field == "summary"@ {
        n == (Issue { summary: value, ..o })
    } else if field == "duedate"@ {
        n == (Issue { due: value, ..o })
    } else if field == "estimate"@ {
        n == (Issue { estimate: value, ..o })
    } else if field == "remaining"@ {
        n == (Issue { remaining: value, ..o })
    } else {
        custom_set(o, n, field, value@)
    }
}

/// Whether `n` is `o` with the custom field `id` set to `value`.
pub open spec fn custom_set(o: Issue, n: Issue, id: Seq<char>, value: Seq<char>) -> bool {
    &&& same_but_custom(o, n)
    &&& custom_lookup(n.custom_values@, id) == Some(value)
    &&& forall|other: Seq<char>|
        other != id ==> custom_lookup(n.custom_values@, other) == custom_lookup(o.custom_values@, other)
}

impl Issue {
    /// Sets one cell of the editable table.
    pub fn set_cell(&mut self, field: &str, value: String)
        ensures
            cell_set(*old(self), *final(self), field@, value),
    {
        if str_eq(field, "summary") {
            self.summary = value;
        } else if str_eq(field, "duedate") {
            self.due = value;
        } else if str_eq(field, "estimate") {
            self.estimate = value;
        } else if str_eq(field, "remaining") {
            self.remaining = value;
        } else {
            self.set_custom_value(field.to_owned(), value);
        }
    }
}

/// The position of the last issue with a key, the entry a map built from the
/// issues in order keeps.
pub open spec fn last_with_key(s: Seq<Issue>, key: Seq<char>) -> Option<int>
    decreases s.len(),
{
    if s.len() == 0 {
        None
    } else if s.last().key@ == key {
        Some(s.len() - 1)
    } else {
        last_with_key(s.drop_last(), key)
    }
}

proof fn lemma_last_with_key_in_range(s: Seq<Issue>, key: Seq<char>)
    ensures
        last_with_key(s, key) matches Some(j) ==> 0 <= j < s.len() && s[j].key@ == key,
    decreases s.len(),
{
    if s.len() > 0 && s.last().key@ != key {
        lemma_last_with_key_in_range(s.drop_last(), key);
        if let Some(j) = last_with_key(s.drop_last(), key) {
            assert(s.drop_last()[j] == s[j]);
        }
    }
}

/// The position of the last issue with a key.
fn find_last_with_key(s: &Vec<Issue>, key: &str) -> (r: Option<usize>)
    ensures
        r matches Some(j) ==> last_with_key(s@, key@) == Some(j as int),
        r is None ==> last_with_key(s@, key@) is None,
{
    let mut i: usize = s.len();
    assert(s@.take(i as int) =~= s@);
    while i > 0
        invariant
            i <= s@.len(),
            last_with_key(s@, key@) == last_with_key(s@.take(i as int), key@),
        decreases i,
    {
        let ghost t = s@.take(i as int);
        assert(t.drop_last() =~= s@.take(i - 1));
        if str_eq(s[i - 1].key.as_str(), key) {
            return Some(i - 1);
        }
        i = i - 1;
    }
    None
}

/// Sets a cell of the issue with `key` in the edit draft (its last entry);
/// an unknown key changes nothing.
pub fn edit_draft_cell(draft: &mut Vec<Issue>, key: &str, field: &str, value: String)
    ensures
        match last_with_key(old(draft)@, key@) {
            Some(j) => final(draft)@.len() == old(draft)@.len() && cell_set(old(draft)@[j], final(draft)@[j], field@, value)
                && forall|k: int| 0 <= k < old(draft)@.len() && k != j ==> final(draft)@[k] == old(draft)@[k],
            None => final(draft)@ == old(draft)@,
        },
{
    proof {
        lemma_last_with_key_in_range(draft@, key@);
    }
    match find_last_with_key(draft, key) {
        Some(j) => {
            let mut item = draft.remove(j);
            item.set_cell(field, value);
            draft.insert(j, item);
        },
        None => {},
    }
}

/// Sets a custom field of the issue with `key` in the edit draft (its last
/// entry); an unknown key changes nothing.
pub fn edit_draft_custom(draft: &mut Vec<Issue>, key: &str, field_id: String, value: String)
    ensures
        match last_with_key(old(draft)@, key@) {
            Some(j) => final(draft)@.len() == old(draft)@.len() && custom_set(old(draft)@[j], final(draft)@[j], field_id@, value@)
                && forall|k: int| 0 <= k < old(draft)@.len() && k != j ==> final(draft)@[k] == old(draft)@[k],
            None => final(draft)@ == old(draft)@,
        },
{
    proof {
        lemma_last_with_key_in_range(draft@, key@);
    }
    match find_last_with_key(draft, key) {
        Some(j) => {
            let mut item = draft.remove(j);
            item.set_custom_value(field_id, value);
            draft.insert(j, item);
        },
        None => {},
    }
}

/// The values a checkbox field's text holds: its comma-separated parts,
/// trimmed, blank ones left out.
pub open spec fn checked_values(current: Seq<char>) -> Seq<Seq<char>> {
    nonblank_trimmed(split_on(current, ','))
}

/// The trimmed texts, blank ones left out.
pub open spec fn nonblank_trimmed(parts: Seq<Seq<char>>) -> Seq<Seq<char>>
    decreases parts.len(),
{
    if parts.len() == 0 {
        seq![]
    } else {
        let rest = nonblank_trimmed(parts.drop_last());
        if trim(parts.last()).len() > 0 {
            rest.push(trim(parts.last()))
        } else {
            rest
        }
    }
}

/// One choice of the checkbox editor.
pub struct CheckboxOption {
    pub label: String,
    pub checked: bool,
}

/// The choices of a checkbox field, each checked when the field's current
/// text holds it.
pub fn checkbox_options(options: &[String], current: &str) -> (r: Vec<CheckboxOption>)
    ensures
        r@.len() == options@.len(),
        forall|i: int| 0 <= i < options@.len() ==> #[trigger] r@[i].label == options@[i],
        forall|i: int|
            0 <= i < options@.len() ==> #[trigger] r@[i].checked == checked_values(current@).contains(
                options@[i]@,
            ),
{
    let parts = split_on_char(&chars_of(current), ',');
    let ghost pv = parts@.map_values(|w: Vec<char>| w@);
    let mut selected: Vec<String> = Vec::new();
    let mut k: usize = 0;
    while k < parts.len()
        invariant
            k <= parts@.len(),
            pv == parts@.map_values(|w: Vec<char>| w@),
            pv == split_on(current@, ','),
            views(selected@) == nonblank_trimmed(pv.take(k as int)),
        decreases parts@.len() - k,
    {
        let t = trim_chars(&parts[k]);
        let ghost tk = pv.take(k as int);
        assert(pv.take(k + 1).drop_last() =~= tk);
        assert(parts@[k as int]@ == pv[k as int]);
        if t.len() > 0 {
            let ghost before = views(selected@);
            selected.push(string_of(&t));
            assert(views(selected@) =~= before.push(t@));
        }
        k = k + 1;
    }
    assert(pv.take(k as int) =~= pv);
    let ghost sel = views(selected@);
    let mut out: Vec<CheckboxOption> = Vec::new();
    let mut i: usize = 0;
    while i < options.len()
        invariant
            i <= options@.len(),
            sel == views(selected@),
            sel == checked_values(current@),
            out@.len() == i,
            forall|j: int|
                #![trigger out@[j]]
                0 <= j < i ==> out@[j].label == options@[j] && out@[j].checked
                    == checked_values(current@).contains(options@[j]@),
        decreases options@.len() - i,
    {
        let checked = crate::keys::holds(&selected, &options[i]);
        let label = options[i].clone();
        assert(label == options@[i as int]);
        let ghost before = out@;
        out.push(CheckboxOption { label, checked });
        assert(out@[i as int].label == options@[i as int]);
        assert(forall|j: int| 0 <= j < i ==> out@[j] == before[j]);
        i = i + 1;
    }
    out
}

/// Texts joined with a separator between them.
pub open spec fn joined(parts: Seq<Seq<char>>, sep: Seq<char>) -> Seq<char>
    decreases parts.len(),
{
    if parts.len() == 0 {
        seq![]
    } else if parts.len() == 1 {
        parts[0]
    } else {
        joined(parts.drop_last(), sep) + sep + parts.last()
    }
}

/// The labels of the checked choices, in order.
pub open spec fn checked_labels(opts: Seq<CheckboxOption>) -> Seq<Seq<char>>
    decreases opts.len(),
{
    if opts.len() == 0 {
        seq![]
    } else if opts.last().checked {
        checked_labels(opts.drop_last()).push(opts.last().label@)
    } else {
        checked_labels(opts.drop_last())
    }
}

/// The text a checkbox field takes from the editor: the checked labels,
/// joined with `, `.
pub fn checked_text(options: &[CheckboxOption]) -> (r: String)
    ensures
        r@ == joined(checked_labels(options@), ", "@),
{
    let mut out: Vec<char> = Vec::new();
    let mut count: usize = 0;
    let mut i: usize = 0;
    while i < options.len()
        invariant
            i <= options@.len(),
            count <= i,
            count == checked_labels(options@.take(i as int)).len(),
            out@ == joined(checked_labels(options@.take(i as int)), ", "@),
        decreases options@.len() - i,
    {
        let ghost t = options@.take(i + 1);
        assert(t.drop_last() =~= options@.take(i as int));
        assert(t.last() == options@[i as int]);
        if options[i].checked {
            let ghost prev = checked_labels(options@.take(i as int));
            if count > 0 {
                push_str(&mut out, ", ");
            }
            let ghost mid = out@;
            push_str(&mut out, options[i].label.as_str());
            proof {
                let next = prev.push(options@[i as int].label@);
                assert(next.drop_last() =~= prev);
                if count == 0 {
                    assert(joined(prev, ", "@) =~= Seq::<char>::empty());
                    assert(out@ =~= options@[i as int].label@);
                }
            }
            count = count + 1;
        }
        i = i + 1;
    }
    assert(options@.take(i as int) =~= options@);
    string_of(&out)
}

/// Whether two issues hold the same custom values.
pub open spec fn same_custom(a: Issue, b: Issue) -> bool {
    forall|id: Seq<char>| #[trigger] custom_lookup(a.custom_values@, id) == custom_lookup(b.custom_values@, id)
}

/// Whether the edit `u` of the issue `o` changes what saving sends: the
/// summary, due date, estimate, remaining time or custom values.
pub open spec fn edit_changes(o: Issue, u: Issue) -> bool {
    ||| o.summary@ != u.summary@
    ||| o.due@ != u.due@
    ||| o.estimate@ != u.estimate@
    ||| o.remaining@ != u.remaining@
    ||| !same_custom(o, u)
}

/// Whether two optional texts are equal.
fn same_text(a: &Option<String>, b: &Option<String>) -> (r: bool)
    ensures
        r == (crate::fetch::opt_text(*a) == crate::fetch::opt_text(*b)),
{
    match (a, b) {
        (Some(x), Some(y)) => str_eq(x.as_str(), y.as_str()),
        (None, None) => true,
        _ => false,
    }
}

/// Whether every field id that `a` has reads the same in `b`.
fn lookups_agree(a: &Issue, b: &Issue) -> (r: bool)
    ensures
        r == forall|k: int|
            0 <= k < a.custom_values@.len() ==> custom_lookup(a.custom_values@, #[trigger] a.custom_values@[k].field_id@)
                == custom_lookup(b.custom_values@, a.custom_values@[k].field_id@),
{
    let mut k: usize = 0;
    while k < a.custom_values.len()
        invariant
            k <= a.custom_values@.len(),
            forall|j: int|
                0 <= j < k ==> custom_lookup(a.custom_values@, #[trigger] a.custom_values@[j].field_id@)
                    == custom_lookup(b.custom_values@, a.custom_values@[j].field_id@),
        decreases a.custom_values@.len() - k,
    {
        let id = a.custom_values[k].field_id.as_str();
        let x = a.custom_value(id);
        let y = b.custom_value(id);
        if !same_text(&x, &y) {
            return false;
        }
        k = k + 1;
    }
    true
}

/// Whether two issues hold the same custom values.
fn same_custom_values(a: &Issue, b: &Issue) -> (r: bool)
    ensures
        r == same_custom(*a, *b),
{
    let ab = lookups_agree(a, b);
    let ba = lookups_agree(b, a);
    if ab && ba {
        assert forall|id: Seq<char>| #[trigger] custom_lookup(a.custom_values@, id) == custom_lookup(b.custom_values@, id) by {
            let av = a.custom_values@;
            let bv = b.custom_values@;
            if exists|k: int| 0 <= k < av.len() && #[trigger] av[k].field_id@ == id {
                let k = choose|k: int| 0 <= k < av.len() && #[trigger] av[k].field_id@ == id;
                assert(custom_lookup(av, av[k].field_id@) == custom_lookup(bv, av[k].field_id@));
            } else if exists|k: int| 0 <= k < bv.len() && #[trigger] bv[k].field_id@ == id {
                let k = choose|k: int| 0 <= k < bv.len() && #[trigger] bv[k].field_id@ == id;
                assert(custom_lookup(bv, bv[k].field_id@) == custom_lookup(av, bv[k].field_id@));
            } else {
                lemma_lookup_none(av, id);
                lemma_lookup_none(bv, id);
            }
        }
        true
    } else {
        false
    }
}

/// The draft positions of the edited issues that changed, in the order of
/// the issues as fetched; an issue is looked up in the draft by its key.
pub open spec fn changed_spec(originals: Seq<Issue>, draft: Seq<Issue>) -> Seq<int>
    decreases originals.len(),
{
    if originals.len() == 0 {
        seq![]
    } else {
        let rest = changed_spec(originals.drop_last(), draft);
        match last_with_key(draft, originals.last().key@) {
            Some(j) => if edit_changes(originals.last(), draft[j]) {
                rest.push(j)
            } else {
                rest
            },
            None => rest,
        }
    }
}

/// The draft positions of the issues whose edit changed something.
pub fn changed_edits(originals: &[Issue], draft: &Vec<Issue>) -> (r: Vec<usize>)
    ensures
        r@.len() == changed_spec(originals@, draft@).len(),
        forall|i: int| 0 <= i < r@.len() ==> #[trigger] r@[i] == changed_spec(originals@, draft@)[i],
        forall|i: int| 0 <= i < r@.len() ==> #[trigger] r@[i] < draft@.len(),
{
    let mut out: Vec<usize> = Vec::new();
    let mut i: usize = 0;
    while i < originals.len()
        invariant
            i <= originals@.len(),
            out@.len() == changed_spec(originals@.take(i as int), draft@).len(),
            forall|k: int| 0 <= k < out@.len() ==> #[trigger] out@[k] == changed_spec(originals@.take(i as int), draft@)[k],
            forall|k: int| 0 <= k < out@.len() ==> #[trigger] out@[k] < draft@.len(),
        decreases originals@.len() - i,
    {
        let ghost t = originals@.take(i + 1);
        assert(t.drop_last() =~= originals@.take(i as int));
        assert(t.last() == originals@[i as int]);
        proof {
            lemma_last_with_key_in_range(draft@, originals@[i as int].key@);
        }
        match find_last_with_key(draft, originals[i].key.as_str()) {
            Some(j) => {
                let o = &originals[i];
                let u = &draft[j];
                let changes = !str_eq(o.summary.as_str(), u.summary.as_str()) || !str_eq(
                    o.due.as_str(),
                    u.due.as_str(),
                ) || !str_eq(o.estimate.as_str(), u.estimate.as_str()) || !str_eq(
                    o.remaining.as_str(),
                    u.remaining.as_str(),
                ) || !same_custom_values(o, u);
                if changes {
                    out.push(j);
                }
            },
            None => {},
        }
        i = i + 1;
    }
    assert(originals@.take(i as int) =~= originals@);
    out
}

/// Whether a due date is accepted: blank, or a date once trimmed.
pub open spec fn due_ok(due: Seq<char>) -> bool {
    trim(due).len() == 0 || date_text_parses(trim(due), "%Y-%m-%d"@)
}

/// Why an edited issue cannot be saved, if it cannot: a blank summary, a
/// due date that is not a date, or an estimate or remaining time that does
/// not read, checked in that order.
pub open spec fn edit_error(i: Issue) -> Option<Seq<char>> {
    if trim(i.summary@).len() == 0 {
        Some(i.key@ + ": タイトルは空にできません。"@)
    } else if !due_ok(i.due@) {
        Some(i.key@ + ": "@ + "期限はカレンダーから選択するか YYYY-MM-DD で指定してください。"@)
    } else if duration_seconds(i.estimate@) is Err {
        Some(i.key@ + ": "@ + fault_message(duration_seconds(i.estimate@)->Err_0))
    } else if duration_seconds(i.remaining@) is Err {
        Some(i.key@ + ": 残余時間: "@ + fault_message(duration_seconds(i.remaining@)->Err_0))
    } else {
        None
    }
}

/// Whether the checks of an edited issue can run: each duration that is
/// read has parts ending in ASCII characters.
pub open spec fn edit_checkable(i: Issue) -> bool {
    ||| trim(i.summary@).len() == 0
    ||| !due_ok(i.due@)
    ||| parts_end_ascii(i.estimate@) && (duration_seconds(i.estimate@) is Err || parts_end_ascii(
        i.remaining@,
    ))
}

/// The first reason, in order, why one of the edited issues cannot be saved.
pub open spec fn first_edit_error(draft: Seq<Issue>, ps: Seq<usize>) -> Option<Seq<char>>
    decreases ps.len(),
{
    if ps.len() == 0 {
        None
    } else {
        match edit_error(draft[ps[0] as int]) {
            Some(e) => Some(e),
            None => first_edit_error(draft, ps.drop_first()),
        }
    }
}

/// Whether the checks can run on the edited issues, up to the first that
/// fails.
pub open spec fn edits_checkable(draft: Seq<Issue>, ps: Seq<usize>) -> bool
    decreases ps.len(),
{
    ps.len() == 0 || {
        &&& ps[0] < draft.len()
        &&& edit_checkable(draft[ps[0] as int])
        &&& (edit_error(draft[ps[0] as int]) is Some || edits_checkable(draft, ps.drop_first()))
    }
}

fn prefixed(key: &str, middle: &str, tail: &str) -> (r: String)
    ensures
        r@ == key@ + middle@ + tail@,
{
    let mut out = chars_of(key);
    push_str(&mut out, middle);
    push_str(&mut out, tail);
    string_of(&out)
}

/// Whether the checks of an edited issue can run.
fn edit_checkable_now(i: &Issue) -> (r: bool)
    ensures
        r == edit_checkable(*i),
{
    if chars_of(trimmed_str(i.summary.as_str()).as_str()).len() == 0 {
        return true;
    }
    if validate_due(i.due.as_str()).is_err() {
        return true;
    }
    if !duration_parts_ascii(i.estimate.as_str()) {
        return false;
    }
    match parse_duration(i.estimate.as_str()) {
        Err(_) => true,
        Ok(_) => duration_parts_ascii(i.remaining.as_str()),
    }
}

fn trimmed_str(s: &str) -> (r: String)
    ensures
        r@ == trim(s@),
{
    crate::text::trimmed(s)
}

/// Why an edited issue cannot be saved, if it cannot.
fn edit_error_of(i: &Issue) -> (r: Option<String>)
    requires
        edit_checkable(*i),
    ensures
        crate::fetch::opt_text(r) == edit_error(*i),
{
    if chars_of(trimmed_str(i.summary.as_str()).as_str()).len() == 0 {
        let mut out = chars_of(i.key.as_str());
        push_str(&mut out, ": タイトルは空にできません。");
        return Some(string_of(&out));
    }
    match validate_due(i.due.as_str()) {
        Err(m) => {
            return Some(prefixed(i.key.as_str(), ": ", m.as_str()));
        },
        Ok(()) => {},
    }
    match parse_duration(i.estimate.as_str()) {
        Err(m) => {
            return Some(prefixed(i.key.as_str(), ": ", m.as_str()));
        },
        Ok(_) => {},
    }
    match parse_duration(i.remaining.as_str()) {
        Err(m) => Some(prefixed(i.key.as_str(), ": 残余時間: ", m.as_str())),
        Ok(_) => None,
    }
}

/// Whether the checks can run on the edited issues at these positions; the
/// app tests this before `check_edits`.
pub fn edits_can_be_checked(draft: &Vec<Issue>, positions: &Vec<usize>) -> (r: bool)
    ensures
        r == edits_checkable(draft@, positions@),
{
    let mut k: usize = positions.len();
    let mut ok = true;
    assert(positions@.skip(k as int) =~= Seq::<usize>::empty());
    while k > 0
        invariant
            k <= positions@.len(),
            ok == edits_checkable(draft@, positions@.skip(k as int)),
        decreases k,
    {
        let ghost t = positions@.skip(k - 1);
        assert(t.drop_first() =~= positions@.skip(k as int));
        assert(t[0] == positions@[k - 1]);
        let p = positions[k - 1];
        if p >= draft.len() {
            ok = false;
        } else if !edit_checkable_now(&draft[p]) {
            ok = false;
        } else {
            let failing = edit_error_of(&draft[p]).is_some();
            ok = failing || ok;
        }
        k = k - 1;
    }
    assert(positions@.skip(0) =~= positions@);
    ok
}

/// Checks the edited issues before saving: the first reason one of them
/// cannot be saved, in order, prefixed with its key.
pub fn check_edits(draft: &Vec<Issue>, positions: &Vec<usize>) -> (r: Result<(), String>)
    requires
        edits_checkable(draft@, positions@),
    ensures
        match first_edit_error(draft@, positions@) {
            Some(e) => r matches Err(m) && m@ == e,
            None => r is Ok,
        },
{
    let mut k: usize = 0;
    assert(positions@.skip(0) =~= positions@);
    while k < positions.len()
        invariant
            k <= positions@.len(),
            edits_checkable(draft@, positions@.skip(k as int)),
            first_edit_error(draft@, positions@) == first_edit_error(draft@, positions@.skip(k as int)),
        decreases positions@.len() - k,
    {
        let ghost t = positions@.skip(k as int);
        assert(t.drop_first() =~= positions@.skip(k + 1));
        assert(t[0] == positions@[k as int]);
        let p = positions[k];
        match edit_error_of(&draft[p]) {
            Some(m) => {
                return Err(m);
            },
            None => {},
        }
        k = k + 1;
    }
    Ok(())
}

/// Saving picks up every edit of a field it sends: where the draft issue for
/// an original (the last draft issue with its key) differs from it in the
/// summary, the due date, the estimate or the remaining time, that draft
/// position is among the changed ones.
pub proof fn law_changed_fields_are_saved(originals: Seq<Issue>, draft: Seq<Issue>, i: int, j: int)
    requires
        0 <= i < originals.len(),
        last_with_key(draft, originals[i].key@) == Some(j),
        ({
            let o = originals[i];
            let u = draft[j];
            ||| o.summary@ != u.summary@
            ||| o.due@ != u.due@
            ||| o.estimate@ != u.estimate@
            ||| o.remaining@ != u.remaining@
        }),
    ensures
        changed_spec(originals, draft).contains(j),
    decreases originals.len(),
{
    let rest = changed_spec(originals.drop_last(), draft);
    if i == originals.len() - 1 {
        assert(rest.push(j).last() == j);
    } else {
        assert(originals.drop_last()[i] == originals[i]);
        law_changed_fields_are_saved(originals.drop_last(), draft, i, j);
        let k = choose|k: int| 0 <= k < rest.len() && rest[k] == j;
        match last_with_key(draft, originals.last().key@) {
            Some(m) => {
                if edit_changes(originals.last(), draft[m]) {
                    assert(rest.push(m)[k] == j);
                }
            },
            None => {},
        }
    }
}

/// Saving sends only real edits: every changed position is the draft issue
/// of some original (the last draft issue with its key) that differs from it
/// in the summary, the due date, the estimate, the remaining time or a custom
/// value.
pub proof fn law_saved_edits_changed(originals: Seq<Issue>, draft: Seq<Issue>, j: int)
    requires
        changed_spec(originals, draft).contains(j),
    ensures
        exists|i: int|
            0 <= i < originals.len() && #[trigger] last_with_key(draft, originals[i].key@) == Some(j) && {
                let o = originals[i];
                let u = draft[j];
                ||| o.summary@ != u.summary@
                ||| o.due@ != u.due@
                ||| o.estimate@ != u.estimate@
                ||| o.remaining@ != u.remaining@
                ||| exists|id: Seq<char>| #[trigger] custom_lookup(o.custom_values@, id) != custom_lookup(u.custom_values@, id)
            },
    decreases originals.len(),
{
    let rest = changed_spec(originals.drop_last(), draft);
    let n = originals.len() - 1;
    if rest.contains(j) {
        law_saved_edits_changed(originals.drop_last(), draft, j);
        let i = choose|i: int|
            0 <= i < originals.drop_last().len() && #[trigger] last_with_key(draft, originals.drop_last()[i].key@) == Some(j) && {
                let o = originals.drop_last()[i];
                let u = draft[j];
                ||| o.summary@ != u.summary@
                ||| o.due@ != u.due@
                ||| o.estimate@ != u.estimate@
                ||| o.remaining@ != u.remaining@
                ||| exists|id: Seq<char>| #[trigger] custom_lookup(o.custom_values@, id) != custom_lookup(u.custom_values@, id)
            };
        assert(originals.drop_last()[i] == originals[i]);
    } else {
        match last_with_key(draft, originals.last().key@) {
            Some(m) => {
                assert(edit_changes(originals.last(), draft[m]));
                assert(m == j);
                assert(originals[n] == originals.last());
            },
            None => {},
        }
    }
}

} // verus!
