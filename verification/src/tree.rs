//! The navigation tree: which issues it shows under a type filter, pinned
//! favorites, and its nodes in display order.

use vstd::prelude::*;
use crate::forest::{display_order, effective_parents, eff_parent, entries, forest_view, keys_of, key_order, law_key_order_sorted, sorted_by_key, walk, Forest, walk_exec};
use crate::hierarchy::{ancestor_walk, find_key, first_with_key, lemma_first_in_range};
use crate::issue::Issue;
use crate::keys::{lemma_distinct_within, lemma_key_lt_total, lemma_key_lt_transitive, KeySet, key_lt, key_less};
use crate::text::{chars_of, str_eq, string_of};

verus! {

/// Whether an issue has the type the tree is filtered by (any, when empty).
pub open spec fn type_matches(item: Issue, issue_type: Seq<char>) -> bool {
    issue_type.len() == 0 || item.issue_type@ == issue_type
}

/// One step up from a key: the non-empty parent of the first issue with it.
pub open spec fn step_up(all: Seq<Issue>, k: Seq<char>) -> Option<Seq<char>> {
    match first_with_key(all, k) {
        Some(c) => if all[c].parent@.len() > 0 {
            Some(all[c].parent@)
        } else {
            None
        },
        None => None,
    }
}

/// The keys a type filter starts from: every matching issue's key and the
/// keys up its parent chain.
pub open spec fn seed_keys(all: Seq<Issue>, issue_type: Seq<char>) -> Set<Seq<char>> {
    Set::new(
        |k: Seq<char>|
            exists|m: int, i: nat|
                0 <= m < all.len() && type_matches(all[m], issue_type) && i <= all.len()
                    && #[trigger] ancestor_walk(all, all[m].key@, i) == Some(k),
    )
}

/// Whether a set of keys holds every key that a child of one of its keys has.
pub open spec fn child_closed(all: Seq<Issue>, s: Set<Seq<char>>) -> bool {
    forall|j: int| 0 <= j < all.len() && s.contains(#[trigger] all[j].parent@) ==> s.contains(all[j].key@)
}

/// Whether `r` is the set of keys the tree shows under a type filter: with no
/// filter, the issues and their ancestors; with one, the smallest set holding
/// the matching issues with their ancestors and closed under taking children.
pub open spec fn shown_keys(all: Seq<Issue>, issue_type: Seq<char>, r: Set<Seq<char>>) -> bool {
    &&& seed_keys(all, issue_type).subset_of(r)
    &&& if issue_type.len() == 0 {
        r == seed_keys(all, issue_type)
    } else {
        &&& child_closed(all, r)
        &&& forall|t: Set<Seq<char>>|
            seed_keys(all, issue_type).subset_of(t) && child_closed(all, t) ==> #[trigger] r.subset_of(t)
    }
}

/// Whether a set of keys contains the next key up from each of its keys.
pub open spec fn up_closed(all: Seq<Issue>, s: Set<Seq<char>>) -> bool {
    forall|k: Seq<char>| #[trigger] s.contains(k) ==> match step_up(all, k) {
        Some(p) => s.contains(p),
        None => true,
    }
}

proof fn lemma_walk_step(all: Seq<Issue>, k: Seq<char>, i: nat)
    ensures
        ancestor_walk(all, k, i + 1) == match ancestor_walk(all, k, i) {
            Some(x) => step_up(all, x),
            None => None,
        },
{
}

proof fn lemma_walk_none_after(all: Seq<Issue>, k: Seq<char>, i: nat, j: nat)
    requires
        i <= j,
        ancestor_walk(all, k, i) is None,
    ensures
        ancestor_walk(all, k, j) is None,
    decreases j - i,
{
    if i < j {
        lemma_walk_none_after(all, k, i, (j - 1) as nat);
        lemma_walk_step(all, k, (j - 1) as nat);
    }
}

proof fn lemma_up_closed_walk(all: Seq<Issue>, s: Set<Seq<char>>, k: Seq<char>, i: nat, j: nat)
    requires
        up_closed(all, s),
        i <= j,
        ancestor_walk(all, k, i) matches Some(x) && s.contains(x),
    ensures
        ancestor_walk(all, k, j) matches Some(y) ==> s.contains(y),
    decreases j - i,
{
    if i < j {
        lemma_up_closed_walk(all, s, k, i, (j - 1) as nat);
        lemma_walk_step(all, k, (j - 1) as nat);
        match ancestor_walk(all, k, (j - 1) as nat) {
            Some(x) => {
                assert(s.contains(x));
            },
            None => {},
        }
    }
}

/// The keys met in the first `bound` steps up from `start`.
pub open spec fn walked_keys(all: Seq<Issue>, start: Seq<char>, bound: nat) -> Set<Seq<char>> {
    Set::new(|k: Seq<char>| exists|i: nat| i < bound && #[trigger] ancestor_walk(all, start, i) == Some(k))
}

/// The seed keys of the issues before position `m`.
pub open spec fn seeds_upto(all: Seq<Issue>, issue_type: Seq<char>, m: int) -> Set<Seq<char>> {
    Set::new(
        |k: Seq<char>|
            exists|q: int, i: nat|
                0 <= q < m && type_matches(all[q], issue_type) && i <= all.len()
                    && #[trigger] ancestor_walk(all, all[q].key@, i) == Some(k),
    )
}

/// Adds the matching issues and their ancestors.
fn seed_included(all: &[Issue], issue_type: &str) -> (r: KeySet)
    requires
        all@.len() < usize::MAX,
    ensures
        r@ == seed_keys(all@, issue_type@),
        up_closed(all@, r@),
{
    let n = all.len();
    let ghost ks = keys_of(all@);
    let mut included = KeySet::new();
    let mut m: usize = 0;
    assert(included@ =~= seeds_upto(all@, issue_type@, 0));
    while m < n
        invariant
            m <= n,
            n == all@.len(),
            n < usize::MAX,
            ks == keys_of(all@),
            included@ == seeds_upto(all@, issue_type@, m as int),
            up_closed(all@, included@),
        decreases n - m,
    {
        let ghost start = all@[m as int].key@;
        let ghost before = included@;
        if issue_type.is_empty() || str_eq(all[m].issue_type.as_str(), issue_type) {
            let mut key = all[m].key.clone();
            let mut t: usize = 0;
            let ghost mut fresh: Seq<Seq<char>> = seq![];
            loop
                invariant_except_break
                    t <= n,
                    n == all@.len(),
                    ks == keys_of(all@),
                    ancestor_walk(all@, start, t as nat) == Some(key@),
                    included@ == before + walked_keys(all@, start, t as nat),
                    fresh.len() == t,
                    fresh.no_duplicates(),
                    forall|i: int| 0 <= i < t ==> ancestor_walk(all@, start, i as nat) == Some(#[trigger] fresh[i]),
                    forall|i: int| 0 <= i < t ==> ks.contains(#[trigger] fresh[i]),
                    forall|i: int| 0 <= i < t ==> !before.contains(#[trigger] fresh[i]),
                    forall|k: Seq<char>| #[trigger] included@.contains(k) ==> (t > 0 && k == fresh[t - 1]) || match step_up(all@, k) {
                        Some(p) => included@.contains(p),
                        None => true,
                    },
                    t > 0 ==> step_up(all@, fresh[t - 1]) == Some(key@),
                ensures
                    n == all@.len(),
                    ks == keys_of(all@),
                    included@ == before + walked_keys(all@, start, (n + 1) as nat),
                    up_closed(all@, included@),
                decreases n + 1 - t,
            {
                let ghost cur = key@;
                let ghost inc0 = included@;
                let newly = included.insert(key.clone());
                if !newly {
                    proof {
                        assert(up_closed(all@, included@)) by {
                            assert forall|k: Seq<char>| #[trigger] included@.contains(k) implies match step_up(all@, k) {
                                Some(p) => included@.contains(p),
                                None => true,
                            } by {
                                if t > 0 && k == fresh[t - 1] {
                                    assert(step_up(all@, fresh[t - 1]) == Some(cur));
                                }
                            }
                        }
                        assert forall|k: Seq<char>| #![trigger included@.contains(k)] (exists|i: nat| i <= n && #[trigger] ancestor_walk(all@, start, i) == Some(k)) implies included@.contains(k) by {
                            let i = choose|i: nat| i <= n && #[trigger] ancestor_walk(all@, start, i) == Some(k);
                            if i < t {
                            } else {
                                lemma_up_closed_walk(all@, included@, start, t as nat, i);
                            }
                        }
                        assert forall|k: Seq<char>| included@.contains(k) implies #[trigger] (before + walked_keys(all@, start, (n + 1) as nat)).contains(k) by {
                            if !before.contains(k) {
                                let i = choose|i: nat| i < t && #[trigger] ancestor_walk(all@, start, i) == Some(k);
                            }
                        }
                        assert(included@ =~= before + walked_keys(all@, start, (n + 1) as nat));
                    }
                    break;
                }
                proof {
                    assert(!before.contains(cur));
                    assert forall|i: int| 0 <= i < t implies fresh[i] != cur by {
                        assert(inc0.contains(fresh[i]));
                    }
                    fresh = fresh.push(cur);
                }
                let found = find_key(all, &key);
                proof {
                    lemma_first_in_range(all@, cur);
                    lemma_walk_step(all@, start, t as nat);
                }
                let stop = match found {
                    None => true,
                    Some(c) => all[c].parent.as_str().is_empty(),
                };
                if stop {
                    proof {
                        assert(step_up(all@, cur) is None);
                        assert(ancestor_walk(all@, start, (t + 1) as nat) is None);
                        assert(up_closed(all@, included@)) by {
                            assert forall|k: Seq<char>| #[trigger] included@.contains(k) implies match step_up(all@, k) {
                                Some(p) => included@.contains(p),
                                None => true,
                            } by {
                                if t > 0 && k == fresh[t - 1] {
                                    assert(step_up(all@, fresh[t - 1]) == Some(cur));
                                } else if k != cur {
                                    assert(inc0.contains(k));
                                }
                            }
                        }
                        let goal = before + walked_keys(all@, start, (n + 1) as nat);
                        assert forall|k: Seq<char>| included@.contains(k) <==> #[trigger] goal.contains(k) by {
                            if included@.contains(k) && !before.contains(k) {
                                if k == cur {
                                    assert(ancestor_walk(all@, start, t as nat) == Some(k));
                                } else {
                                    let i = choose|i: nat| i < t && #[trigger] ancestor_walk(all@, start, i) == Some(k);
                                }
                            }
                            if goal.contains(k) && !before.contains(k) {
                                let i = choose|i: nat| i <= n && #[trigger] ancestor_walk(all@, start, i) == Some(k);
                                if i > t {
                                    lemma_walk_none_after(all@, start, (t + 1) as nat, i);
                                } else if i < t {
                                    assert(inc0.contains(k));
                                }
                            }
                        }
                        assert(included@ =~= goal);
                    }
                    break;
                }
                let c = match found {
                    Some(c) => c,
                    None => 0,
                };
                proof {
                    assert(all@[c as int].key@ == cur);
                    assert(ks[c as int] == cur);
                    assert(step_up(all@, cur) == Some(all@[c as int].parent@));
                    assert forall|i: int| 0 <= i < fresh.len() implies ks.contains(#[trigger] fresh[i]) by {
                        if i == t {
                            assert(ks[c as int] == fresh[i]);
                        }
                    }
                    lemma_distinct_within(fresh, ks);
                    assert(ks.len() == n);
                }
                key = all[c].parent.clone();
                proof {
                    assert forall|k: Seq<char>| #[trigger] included@.contains(k) implies (k == fresh[t as int]) || match step_up(all@, k) {
                        Some(p) => included@.contains(p),
                        None => true,
                    } by {
                        if t > 0 && k == fresh[t - 1] {
                            assert(step_up(all@, fresh[t - 1]) == Some(cur));
                        } else if k != cur {
                            assert(inc0.contains(k));
                        }
                    }
                    assert(included@ =~= before + walked_keys(all@, start, (t + 1) as nat)) by {
                        assert forall|k: Seq<char>| #[trigger] included@.contains(k) <==> (before + walked_keys(all@, start, (t + 1) as nat)).contains(k) by {
                            if included@.contains(k) && !before.contains(k) && k != cur {
                                let i = choose|i: nat| i < t && #[trigger] ancestor_walk(all@, start, i) == Some(k);
                            }
                            if k == cur {
                                assert(ancestor_walk(all@, start, t as nat) == Some(k));
                            }
                            if !before.contains(k) && (exists|i: nat| i < t + 1 && #[trigger] ancestor_walk(all@, start, i) == Some(k)) {
                                let i = choose|i: nat| i < t + 1 && #[trigger] ancestor_walk(all@, start, i) == Some(k);
                                if i < t {
                                    assert(inc0.contains(k));
                                }
                            }
                        }
                    }
                }
                t = t + 1;
            }
            proof {
                let walked = walked_keys(all@, start, (n + 1) as nat);
                assert forall|k: Seq<char>| #[trigger] seeds_upto(all@, issue_type@, m + 1).contains(k) <==> (before + walked).contains(k) by {
                    if seeds_upto(all@, issue_type@, m + 1).contains(k) {
                        let (q, i) = choose|q: int, i: nat| 0 <= q < m + 1 && type_matches(all@[q], issue_type@) && i <= all@.len() && #[trigger] ancestor_walk(all@, all@[q].key@, i) == Some(k);
                        if q < m {
                            assert(seeds_upto(all@, issue_type@, m as int).contains(k));
                        } else {
                            assert(walked.contains(k));
                        }
                    }
                    if walked.contains(k) {
                        let i = choose|i: nat| i <= n && #[trigger] ancestor_walk(all@, start, i) == Some(k);
                        assert(ancestor_walk(all@, all@[m as int].key@, i) == Some(k));
                    }
                    if before.contains(k) {
                        let (q, i) = choose|q: int, i: nat| 0 <= q < m && type_matches(all@[q], issue_type@) && i <= all@.len() && #[trigger] ancestor_walk(all@, all@[q].key@, i) == Some(k);
                        assert(ancestor_walk(all@, all@[q].key@, i) == Some(k));
                    }
                }
                assert(included@ =~= seeds_upto(all@, issue_type@, m + 1));
            }
        } else {
            proof {
                assert forall|k: Seq<char>| #[trigger] seeds_upto(all@, issue_type@, m + 1).contains(k) <==> before.contains(k) by {
                    if seeds_upto(all@, issue_type@, m + 1).contains(k) {
                        let (q, i) = choose|q: int, i: nat| 0 <= q < m + 1 && type_matches(all@[q], issue_type@) && i <= all@.len() && #[trigger] ancestor_walk(all@, all@[q].key@, i) == Some(k);
                        assert(q < m);
                        assert(ancestor_walk(all@, all@[q].key@, i) == Some(k));
                    }
                    if before.contains(k) {
                        let (q, i) = choose|q: int, i: nat| 0 <= q < m && type_matches(all@[q], issue_type@) && i <= all@.len() && #[trigger] ancestor_walk(all@, all@[q].key@, i) == Some(k);
                        assert(ancestor_walk(all@, all@[q].key@, i) == Some(k));
                    }
                }
                assert(included@ =~= seeds_upto(all@, issue_type@, m + 1));
            }
        }
        m = m + 1;
    }
    assert(seeds_upto(all@, issue_type@, n as int) =~= seed_keys(all@, issue_type@));
    included
}


/// How many of the first `n` issues have a key outside `s`.
pub open spec fn outside(all: Seq<Issue>, s: Set<Seq<char>>, n: int) -> nat
    decreases n,
{
    if n <= 0 {
        0
    } else {
        outside(all, s, n - 1) + if s.contains(all[n - 1].key@) {
            0nat
        } else {
            1nat
        }
    }
}

proof fn lemma_outside_shrinks(all: Seq<Issue>, s: Set<Seq<char>>, t: Set<Seq<char>>, n: int, q: int)
    requires
        s.subset_of(t),
        0 <= q < n,
        !s.contains(all[q].key@),
        t.contains(all[q].key@),
    ensures
        outside(all, t, n) < outside(all, s, n),
    decreases n,
{
    if q < n - 1 {
        lemma_outside_shrinks(all, s, t, n - 1, q);
    } else {
        lemma_outside_mono(all, s, t, n - 1);
    }
}

proof fn lemma_outside_mono(all: Seq<Issue>, s: Set<Seq<char>>, t: Set<Seq<char>>, n: int)
    requires
        s.subset_of(t),
    ensures
        outside(all, t, n) <= outside(all, s, n),
    decreases n,
{
    if n > 0 {
        lemma_outside_mono(all, s, t, n - 1);
    }
}

/// The keys the tree shows under a type filter.
fn included_keys(all: &[Issue], issue_type: &str) -> (r: KeySet)
    requires
        all@.len() < usize::MAX,
    ensures
        shown_keys(all@, issue_type@, r@),
{
    let n = all.len();
    let mut included = seed_included(all, issue_type);
    let ghost seeds = seed_keys(all@, issue_type@);
    if issue_type.is_empty() {
        return included;
    }
    let mut changed = true;
    while changed
        invariant
            n == all@.len(),
            seeds == seed_keys(all@, issue_type@),
            seeds.subset_of(included@),
            forall|t: Set<Seq<char>>| seeds.subset_of(t) && child_closed(all@, t) ==> #[trigger] included@.subset_of(t),
            !changed ==> child_closed(all@, included@),
        decreases outside(all@, included@, n as int) + if changed {
            1int
        } else {
            0int
        },
    {
        let ghost i0 = included@;
        changed = false;
        let mut j: usize = 0;
        while j < n
            invariant
                j <= n,
                n == all@.len(),
                seeds == seed_keys(all@, issue_type@),
                i0.subset_of(included@),
                seeds.subset_of(included@),
                forall|t: Set<Seq<char>>| seeds.subset_of(t) && child_closed(all@, t) ==> #[trigger] included@.subset_of(t),
                !changed ==> included@ == i0,
                !changed ==> forall|q: int| 0 <= q < j && i0.contains(#[trigger] all@[q].parent@) ==> i0.contains(all@[q].key@),
                changed ==> outside(all@, included@, n as int) < outside(all@, i0, n as int),
                forall|k: Seq<char>| #[trigger] included@.contains(k) && !i0.contains(k) ==> exists|q: int| 0 <= q < n && all@[q].key@ == k && included@.contains(#[trigger] all@[q].parent@),
            decreases n - j,
        {
            let ghost before = included@;
            if included.contains(&all[j].parent) {
                let newly = included.insert(all[j].key.clone());
                if newly {
                    proof {
                        assert(included@ == before.insert(all@[j as int].key@));
                        assert(before.subset_of(included@));
                        assert(before.contains(all@[j as int].parent@));
                        lemma_outside_shrinks(all@, before, included@, n as int, j as int);
                        lemma_outside_mono(all@, i0, before, n as int);
                        assert forall|t: Set<Seq<char>>| seeds.subset_of(t) && child_closed(all@, t) implies #[trigger] included@.subset_of(t) by {
                            assert(before.subset_of(t));
                            assert(t.contains(all@[j as int].parent@));
                            assert(t.contains(all@[j as int].key@));
                        }
                    }
                    changed = true;
                } else {
                    assert(included@ =~= before);
                }
            }
            j = j + 1;
        }
        proof {
            if !changed {
                assert(included@ == i0);
            }
        }
    }
    included
}


/// Only one set of keys meets `shown_keys`.
pub proof fn lemma_shown_unique(all: Seq<Issue>, issue_type: Seq<char>, a: Set<Seq<char>>, b: Set<Seq<char>>)
    requires
        shown_keys(all, issue_type, a),
        shown_keys(all, issue_type, b),
    ensures
        a == b,
{
    if issue_type.len() > 0 {
        assert(a.subset_of(b));
        assert(b.subset_of(a));
        assert(a =~= b);
    }
}

/// The set of keys the tree shows under a type filter.
pub open spec fn shown(all: Seq<Issue>, issue_type: Seq<char>) -> Set<Seq<char>> {
    choose|r: Set<Seq<char>>| shown_keys(all, issue_type, r)
}

/// One node of the navigation tree.
#[derive(Clone, Debug)]
pub struct TreeNode {
    pub key: String,
    pub label: String,
    pub depth: i32,
    pub has_children: bool,
    pub expanded: bool,
    pub favorite: bool,
}

/// The forest the tree walks: the shown issues, with collapsed nodes not opened.
pub open spec fn tree_forest(all: Seq<Issue>, issue_type: Seq<char>, collapsed: Set<Seq<char>>) -> Forest {
    Forest {
        keys: keys_of(all),
        eff: Seq::new(all.len(), |i: int| eff_parent(all, i)),
        order: key_order(keys_of(all), all.len()),
        member: Seq::new(all.len(), |i: int| shown(all, issue_type).contains(all[i].key@)),
        collapsed: collapsed,
    }
}

/// The (position, depth) entries of the tree below the pinned favorites.
pub open spec fn tree_entries(all: Seq<Issue>, issue_type: Seq<char>, collapsed: Set<Seq<char>>) -> Seq<(int, int)> {
    walk(tree_forest(all, issue_type, collapsed), seq![], 0, Set::empty(), (all.len() + 1) as nat).0
}

/// Whether a shown issue has a shown child hanging under it.
pub open spec fn has_shown_child(all: Seq<Issue>, issue_type: Seq<char>, k: Seq<char>) -> bool {
    exists|j: int| 0 <= j < all.len() && shown(all, issue_type).contains(all[j].key@) && #[trigger] eff_parent(all, j) == k
}

/// Whether `node` is the tree node for the entry `(i, d)`.
pub open spec fn tree_node_is(
    node: TreeNode,
    e: (int, int),
    all: Seq<Issue>,
    issue_type: Seq<char>,
    collapsed: Set<Seq<char>>,
    favorites: Set<Seq<char>>,
) -> bool {
    let k = all[e.0].key@;
    &&& node.key@ == k
    &&& node.label@ == k + "  "@ + all[e.0].summary@
    &&& node.depth == e.1
    &&& node.has_children == has_shown_child(all, issue_type, k)
    &&& node.expanded == !collapsed.contains(k)
    &&& node.favorite == favorites.contains(k)
}

/// Whether `node` is the pinned node for the favorite key `k`.
pub open spec fn pinned_node_is(node: TreeNode, k: Seq<char>, all: Seq<Issue>) -> bool {
    &&& first_with_key(all, k) matches Some(i)
    &&& node.key@ == k
    &&& node.label@ == "固定  "@ + k + "  "@ + all[i].summary@
    &&& node.depth == 0
    &&& !node.has_children
    &&& node.expanded
    &&& node.favorite
}

/// The favorites that are keys of issues.
pub open spec fn pinned_keys(all: Seq<Issue>, favorites: Set<Seq<char>>) -> Set<Seq<char>> {
    favorites.filter(|k: Seq<char>| first_with_key(all, k) is Some)
}


/// Whether a key is one of the listed character vectors.
pub open spec fn listed_key(pk: Seq<Vec<char>>, k: Seq<char>) -> bool {
    exists|a: int| 0 <= a < pk.len() && #[trigger] pk[a]@ == k
}

/// Whether a key is among the first `t` favorites and is the key of an issue.
pub open spec fn pinned_upto(fv: Seq<Seq<char>>, t: int, all: Seq<Issue>, k: Seq<char>) -> bool {
    exists|q: int| 0 <= q < t && #[trigger] fv[q] == k && first_with_key(all, k) is Some
}

fn push_text(out: &mut Vec<char>, s: &str)
    ensures
        final(out)@ == old(out)@ + s@,
{
    let cs = chars_of(s);
    let mut i: usize = 0;
    while i < cs.len()
        invariant
            i <= cs.len(),
            out@ == old(out)@ + cs@.take(i as int),
        decreases cs.len() - i,
    {
        out.push(cs[i]);
        i = i + 1;
        assert(out@ =~= old(out)@ + cs@.take(i as int));
    }
    assert(cs@.take(i as int) =~= cs@);
}

/// The pinned favorites that exist, sorted by key: their keys and positions.
fn pinned_entries(all: &[Issue], favorites: &KeySet) -> (r: (Vec<Vec<char>>, Vec<usize>))
    ensures
        r.0@.len() == r.1@.len(),
        forall|a: int, b: int| 0 <= a < b < r.0@.len() ==> key_lt(#[trigger] r.0@[a]@, #[trigger] r.0@[b]@),
        forall|a: int| 0 <= a < r.0@.len() ==> first_with_key(all@, #[trigger] r.0@[a]@) == Some(r.1@[a] as int),
        forall|a: int| 0 <= a < r.1@.len() ==> #[trigger] r.1@[a] < all@.len(),
        forall|k: Seq<char>| #![trigger pinned_keys(all@, favorites@).contains(k)] #![trigger listed_key(r.0@, k)] pinned_keys(all@, favorites@).contains(k) <==> listed_key(r.0@, k),
{
    let favs = favorites.to_vec();
    let ghost fv = favs@.map_values(|s: String| s@);
    let mut pk: Vec<Vec<char>> = Vec::new();
    let mut pi: Vec<usize> = Vec::new();
    let mut t: usize = 0;
    while t < favs.len()
        invariant
            t <= favs@.len(),
            fv == favs@.map_values(|s: String| s@),
            fv.no_duplicates(),
            fv.to_set() == favorites@,
            pk@.len() == pi@.len(),
            forall|a: int, b: int| 0 <= a < b < pk@.len() ==> key_lt(#[trigger] pk@[a]@, #[trigger] pk@[b]@),
            forall|a: int| 0 <= a < pk@.len() ==> first_with_key(all@, #[trigger] pk@[a]@) == Some(pi@[a] as int),
            forall|a: int| 0 <= a < pi@.len() ==> #[trigger] pi@[a] < all@.len(),
            forall|k: Seq<char>| #![trigger listed_key(pk@, k)] #![trigger pinned_upto(fv, t as int, all@, k)] listed_key(pk@, k) <==> pinned_upto(fv, t as int, all@, k),
        decreases favs@.len() - t,
    {
        let f = &favs[t];
        assert(fv[t as int] == f@);
        match find_key(all, f) {
            None => {
                assert forall|k: Seq<char>| #![trigger listed_key(pk@, k)] #![trigger pinned_upto(fv, t + 1, all@, k)] listed_key(pk@, k) <==> pinned_upto(fv, t + 1, all@, k) by {
                    if pinned_upto(fv, t + 1, all@, k) {
                        let q = choose|q: int| 0 <= q < t + 1 && #[trigger] fv[q] == k && first_with_key(all@, k) is Some;
                        if q == t {
                            assert(fv[q] == f@);
                        } else {
                            assert(fv[q] == k);
                            assert(pinned_upto(fv, t as int, all@, k));
                        }
                    }
                    if listed_key(pk@, k) {
                        assert(pinned_upto(fv, t as int, all@, k));
                        let q = choose|q: int| 0 <= q < t && #[trigger] fv[q] == k && first_with_key(all@, k) is Some;
                        assert(fv[q] == k);
                    }
                }
            },
            Some(i) => {
                let kc = chars_of(f.as_str());
                proof {
                    assert forall|a: int| 0 <= a < pk@.len() implies #[trigger] pk@[a]@ != kc@ by {
                        if pk@[a]@ == kc@ {
                            assert(listed_key(pk@, pk@[a]@));
                            assert(pinned_upto(fv, t as int, all@, pk@[a]@));
                            let q = choose|q: int| 0 <= q < t && #[trigger] fv[q] == pk@[a]@ && first_with_key(all@, pk@[a]@) is Some;
                            assert(fv[q] == fv[t as int]);
                        }
                    }
                }
                let mut p: usize = 0;
                while p < pk.len() && key_less(&pk[p], &kc)
                    invariant
                        p <= pk@.len(),
                        forall|a: int| 0 <= a < p ==> key_lt(#[trigger] pk@[a]@, kc@),
                    decreases pk@.len() - p,
                {
                    p = p + 1;
                }
                proof {
                    if p < pk@.len() {
                        lemma_key_lt_total(pk@[p as int]@, kc@);
                        assert(key_lt(kc@, pk@[p as int]@));
                        assert forall|b: int| p <= b < pk@.len() implies key_lt(kc@, #[trigger] pk@[b]@) by {
                            if b > p {
                                lemma_key_lt_transitive(kc@, pk@[p as int]@, pk@[b]@);
                            }
                        }
                    }
                }
                let ghost old_pk = pk@;
                let ghost old_pi = pi@;
                pk.insert(p, kc);
                pi.insert(p, i);
                proof {
                    assert forall|a: int, b: int| 0 <= a < b < pk@.len() implies key_lt(#[trigger] pk@[a]@, #[trigger] pk@[b]@) by {
                        if b < p {
                            assert(pk@[a] == old_pk[a] && pk@[b] == old_pk[b]);
                        } else if b == p {
                            assert(pk@[a] == old_pk[a]);
                        } else if a < p {
                            assert(pk@[a] == old_pk[a] && pk@[b] == old_pk[b - 1]);
                            lemma_key_lt_transitive(old_pk[a]@, kc@, old_pk[b - 1]@);
                        } else if a == p {
                            assert(pk@[b] == old_pk[b - 1]);
                        } else {
                            assert(pk@[a] == old_pk[a - 1] && pk@[b] == old_pk[b - 1]);
                        }
                    }
                    assert forall|a: int| 0 <= a < pk@.len() implies first_with_key(all@, #[trigger] pk@[a]@) == Some(pi@[a] as int) by {
                        if a < p {
                            assert(pk@[a] == old_pk[a] && pi@[a] == old_pi[a]);
                        } else if a > p {
                            assert(pk@[a] == old_pk[a - 1] && pi@[a] == old_pi[a - 1]);
                        }
                    }
                    assert forall|a: int| 0 <= a < pi@.len() implies #[trigger] pi@[a] < all@.len() by {
                        if a < p {
                            assert(pi@[a] == old_pi[a]);
                        } else if a > p {
                            assert(pi@[a] == old_pi[a - 1]);
                        }
                    }
                    assert forall|k: Seq<char>| #![trigger listed_key(pk@, k)] #![trigger pinned_upto(fv, t + 1, all@, k)] listed_key(pk@, k) <==> pinned_upto(fv, t + 1, all@, k) by {
                        if listed_key(pk@, k) {
                            let a = choose|a: int| 0 <= a < pk@.len() && #[trigger] pk@[a]@ == k;
                            if a < p {
                                assert(old_pk[a]@ == k);
                                assert(listed_key(old_pk, k));
                                assert(pinned_upto(fv, t as int, all@, k));
                                let q = choose|q: int| 0 <= q < t && #[trigger] fv[q] == k && first_with_key(all@, k) is Some;
                                assert(fv[q] == k);
                            } else if a > p {
                                assert(old_pk[a - 1]@ == k);
                                assert(listed_key(old_pk, k));
                                assert(pinned_upto(fv, t as int, all@, k));
                                let q = choose|q: int| 0 <= q < t && #[trigger] fv[q] == k && first_with_key(all@, k) is Some;
                                assert(fv[q] == k);
                            } else {
                                assert(fv[t as int] == k);
                            }
                        }
                        if pinned_upto(fv, t + 1, all@, k) {
                            let q = choose|q: int| 0 <= q < t + 1 && #[trigger] fv[q] == k && first_with_key(all@, k) is Some;
                            if q == t {
                                assert(pk@[p as int]@ == k);
                            } else {
                                assert(fv[q] == k);
                                assert(pinned_upto(fv, t as int, all@, k));
                                assert(listed_key(old_pk, k));
                                let a = choose|a: int| 0 <= a < old_pk.len() && #[trigger] old_pk[a]@ == k;
                                if a < p {
                                    assert(pk@[a] == old_pk[a]);
                                } else {
                                    assert(pk@[a + 1] == old_pk[a]);
                                }
                            }
                        }
                    }
                }
            },
        }
        t = t + 1;
    }
    proof {
        assert forall|k: Seq<char>| #![trigger pinned_keys(all@, favorites@).contains(k)] #![trigger listed_key(pk@, k)] pinned_keys(all@, favorites@).contains(k) <==> listed_key(pk@, k) by {
            if pinned_keys(all@, favorites@).contains(k) {
                assert(fv.to_set().contains(k));
                let q = choose|q: int| 0 <= q < fv.len() && fv[q] == k;
                assert(fv[q] == k);
            }
            if listed_key(pk@, k) {
                assert(pinned_upto(fv, t as int, all@, k));
                let q = choose|q: int| 0 <= q < t && #[trigger] fv[q] == k && first_with_key(all@, k) is Some;
                assert(fv.contains(k));
                assert(fv.to_set().contains(k));
            }
        }
    }
    (pk, pi)
}


/// Whether `r` is the navigation tree: the favorites that are issue keys,
/// pinned first in key order, then one node for each entry of the walk.
pub open spec fn tree_nodes_ok(
    r: Seq<TreeNode>,
    issues: Seq<Issue>,
    issue_type: Seq<char>,
    collapsed: Set<Seq<char>>,
    favorites: Set<Seq<char>>,
) -> bool {
    let es = tree_entries(issues, issue_type, collapsed);
    let np = r.len() - es.len();
    &&& np >= 0
    &&& forall|a: int, b: int| 0 <= a < b < np ==> key_lt(#[trigger] r[a].key@, #[trigger] r[b].key@)
    &&& forall|a: int| 0 <= a < np ==> pinned_node_is(#[trigger] r[a], r[a].key@, issues)
    &&& forall|k: Seq<char>| pinned_keys(issues, favorites).contains(k) <==> exists|a: int| 0 <= a < np && #[trigger] r[a].key@ == k
    &&& forall|b: int| 0 <= b < es.len() ==> tree_node_is(#[trigger] r[np + b], es[b], issues, issue_type, collapsed, favorites)
}

/// Favorites only pin nodes in front: after the pinned ones, the tree is the
/// tree without favorites node for node, the favorite marks aside.
pub proof fn law_favorites_only_pin(
    issues: Seq<Issue>,
    issue_type: Seq<char>,
    collapsed: Set<Seq<char>>,
    favorites: Set<Seq<char>>,
    with: Seq<TreeNode>,
    without: Seq<TreeNode>,
)
    requires
        tree_nodes_ok(with, issues, issue_type, collapsed, favorites),
        tree_nodes_ok(without, issues, issue_type, collapsed, Set::empty()),
    ensures
        without.len() <= with.len(),
        forall|b: int| 0 <= b < without.len() ==> !(#[trigger] without[b]).favorite,
        ({
            let np = with.len() - without.len();
            &&& forall|k: Seq<char>| pinned_keys(issues, favorites).contains(k) <==> exists|a: int| 0 <= a < np && #[trigger] with[a].key@ == k
            &&& forall|a: int| 0 <= a < np ==> pinned_node_is(#[trigger] with[a], with[a].key@, issues)
            &&& forall|a: int, b: int| 0 <= a < b < np ==> key_lt(#[trigger] with[a].key@, #[trigger] with[b].key@)
            &&& forall|b: int| 0 <= b < without.len() ==> {
                let n = #[trigger] with[np + b];
                let m = without[b];
                &&& n.key@ == m.key@
                &&& n.label@ == m.label@
                &&& n.depth == m.depth
                &&& n.has_children == m.has_children
                &&& n.expanded == m.expanded
                &&& n.favorite == favorites.contains(n.key@)
            }
        }),
{
    let es = tree_entries(issues, issue_type, collapsed);
    let npw = without.len() - es.len();
    if npw > 0 {
        let k = without[0].key@;
        assert(0 <= 0 < npw && without[0].key@ == k);
        assert(exists|a: int| 0 <= a < npw && #[trigger] without[a].key@ == k);
        assert(pinned_keys(issues, Set::empty()).contains(k));
        assert(!Set::<Seq<char>>::empty().contains(k));
    }
    assert(without.len() == es.len());
    let np = with.len() - without.len();
    assert forall|b: int| 0 <= b < without.len() implies !(#[trigger] without[b]).favorite by {
        assert(without[0 + b] == without[b]);
        assert(tree_node_is(without[0 + b], es[b], issues, issue_type, collapsed, Set::empty()));
    }
    assert forall|b: int| 0 <= b < without.len() implies {
        let n = #[trigger] with[np + b];
        let m = without[b];
        &&& n.key@ == m.key@
        &&& n.label@ == m.label@
        &&& n.depth == m.depth
        &&& n.has_children == m.has_children
        &&& n.expanded == m.expanded
        &&& n.favorite == favorites.contains(n.key@)
    } by {
        assert(without[0 + b] == without[b]);
        assert(tree_node_is(without[0 + b], es[b], issues, issue_type, collapsed, Set::empty()));
        assert(tree_node_is(with[np + b], es[b], issues, issue_type, collapsed, favorites));
    }
}

/// The navigation tree: pinned favorites first, sorted by key, then the shown
/// issues depth first from the top level, children sorted by key and not
/// opened under collapsed nodes.
pub fn build_tree_nodes(
    issues: &[Issue],
    issue_type: &str,
    collapsed: &KeySet,
    favorites: &KeySet,
) -> (r: Vec<TreeNode>)
    requires
        issues@.len() < i32::MAX,
    ensures
        tree_nodes_ok(r@, issues@, issue_type@, collapsed@, favorites@),
        forall|a: int|
            #![trigger r@[a]]
            0 <= a < r@.len() ==> exists|i: int| 0 <= i < issues@.len() && #[trigger] issues@[i].key@ == r@[a].key@,
{
    let all = issues;
    let n = all.len();
    let (pk, pi) = pinned_entries(all, favorites);
    let mut result: Vec<TreeNode> = Vec::new();
    let mut a: usize = 0;
    while a < pk.len()
        invariant
            a <= pk@.len(),
            pk@.len() == pi@.len(),
            result@.len() == a,
            forall|x: int| 0 <= x < pk@.len() ==> first_with_key(all@, #[trigger] pk@[x]@) == Some(pi@[x] as int),
            forall|x: int| 0 <= x < pi@.len() ==> #[trigger] pi@[x] < all@.len(),
            forall|x: int| 0 <= x < a ==> #[trigger] result@[x].key@ == pk@[x]@,
            forall|x: int| 0 <= x < a ==> pinned_node_is(#[trigger] result@[x], result@[x].key@, all@),
        decreases pk@.len() - a,
    {
        let i = pi[a];
        let mut label: Vec<char> = Vec::new();
        push_text(&mut label, "固定  ");
        let ghost l1 = label@;
        let mut q: usize = 0;
        while q < pk[a].len()
            invariant
                q <= pk@[a as int]@.len(),
                a < pk@.len(),
                label@ == l1 + pk@[a as int]@.take(q as int),
            decreases pk@[a as int]@.len() - q,
        {
            label.push(pk[a][q]);
            q = q + 1;
            assert(label@ =~= l1 + pk@[a as int]@.take(q as int));
        }
        assert(pk@[a as int]@.take(q as int) =~= pk@[a as int]@);
        push_text(&mut label, "  ");
        push_text(&mut label, all[i].summary.as_str());
        let node = TreeNode {
            key: string_of(&pk[a]),
            label: string_of(&label),
            depth: 0,
            has_children: false,
            expanded: true,
            favorite: true,
        };
        proof {
            assert(node.label@ =~= "固定  "@ + pk@[a as int]@ + "  "@ + all@[i as int].summary@);
        }
        result.push(node);
        a = a + 1;
    }
    let mut keys: Vec<String> = Vec::new();
    let mut i: usize = 0;
    while i < n
        invariant
            i <= n,
            n == all@.len(),
            keys@.len() == i,
            forall|k: int| 0 <= k < i ==> #[trigger] keys@[k]@ == all@[k].key@,
        decreases n - i,
    {
        keys.push(all[i].key.clone());
        i = i + 1;
    }
    let included = included_keys(all, issue_type);
    proof {
        lemma_shown_unique(all@, issue_type@, included@, shown(all@, issue_type@));
    }
    let mut member: Vec<bool> = Vec::new();
    let mut i: usize = 0;
    while i < n
        invariant
            i <= n,
            n == all@.len(),
            keys@.len() == n,
            forall|k: int| 0 <= k < n ==> #[trigger] keys@[k]@ == all@[k].key@,
            member@.len() == i,
            included@ == shown(all@, issue_type@),
            forall|k: int| 0 <= k < i ==> #[trigger] member@[k] == shown(all@, issue_type@).contains(all@[k].key@),
        decreases n - i,
    {
        member.push(included.contains(&keys[i]));
        i = i + 1;
    }
    let eff = effective_parents(all);
    let order = sorted_by_key(all);
    let ghost f = forest_view(keys@, eff@, order@, member@, collapsed@);
    proof {
        let g = tree_forest(all@, issue_type@, collapsed@);
        assert(f.keys =~= g.keys);
        assert(f.eff =~= g.eff);
        assert(f.member =~= g.member);
        assert(f.order == g.order);
        law_key_order_sorted(keys_of(all@), all@.len());
    }
    let mut visited = KeySet::new();
    let mut out: Vec<(usize, i32)> = Vec::new();
    let top = String::new();
    walk_exec(&keys, &eff, &order, &member, collapsed, &top, 0, &mut visited, &mut out, n + 1);
    let ghost es = tree_entries(all@, issue_type@, collapsed@);
    assert(entries(out@) =~= es);
    let np = result.len();
    let mut b: usize = 0;
    while b < out.len()
        invariant
            b <= out@.len(),
            np == pk@.len(),
            result@.len() == np + b,
            n == all@.len(),
            keys@.len() == n,
            eff@.len() == n,
            member@.len() == n,
            forall|k: int| 0 <= k < n ==> #[trigger] keys@[k]@ == all@[k].key@,
            forall|k: int| 0 <= k < n ==> #[trigger] eff@[k]@ == eff_parent(all@, k),
            forall|k: int| 0 <= k < n ==> #[trigger] member@[k] == shown(all@, issue_type@).contains(all@[k].key@),
            entries(out@) == es,
            forall|q: int| 0 <= q < out@.len() ==> (#[trigger] out@[q]).0 < keys@.len(),
            forall|x: int| 0 <= x < np ==> #[trigger] result@[x].key@ == pk@[x]@,
            forall|x: int| 0 <= x < np ==> pinned_node_is(#[trigger] result@[x], result@[x].key@, all@),
            forall|x: int| 0 <= x < b ==> tree_node_is(#[trigger] result@[np + x], es[x], all@, issue_type@, collapsed@, favorites@),
        decreases out@.len() - b,
    {
        let (i, d) = out[b];
        assert(es[b as int] == (i as int, d as int));
        let k = &keys[i];
        let mut has_children = false;
        let mut j: usize = 0;
        while j < n
            invariant
                j <= n,
                n == all@.len(),
                eff@.len() == n,
                member@.len() == n,
                keys@.len() == n,
                i < n,
                *k == keys@[i as int],
                forall|q: int| 0 <= q < n ==> #[trigger] eff@[q]@ == eff_parent(all@, q),
                forall|q: int| 0 <= q < n ==> #[trigger] member@[q] == shown(all@, issue_type@).contains(all@[q].key@),
                has_children == exists|q: int| 0 <= q < j && shown(all@, issue_type@).contains(all@[q].key@) && #[trigger] eff_parent(all@, q) == keys@[i as int]@,
            decreases n - j,
        {
            if member[j] && eff[j] == *k {
                has_children = true;
                assert(eff_parent(all@, j as int) == keys@[i as int]@);
            }
            j = j + 1;
        }
        let mut label: Vec<char> = Vec::new();
        push_text(&mut label, k.as_str());
        push_text(&mut label, "  ");
        push_text(&mut label, all[i].summary.as_str());
        let node = TreeNode {
            key: k.clone(),
            label: string_of(&label),
            depth: d,
            has_children,
            expanded: !collapsed.contains(k),
            favorite: favorites.contains(k),
        };
        proof {
            assert(node.label@ =~= all@[i as int].key@ + "  "@ + all@[i as int].summary@);
        }
        result.push(node);
        b = b + 1;
    }
    proof {
        assert forall|a: int| #![trigger result@[a]] 0 <= a < result@.len() implies exists|i: int|
            0 <= i < all@.len() && #[trigger] all@[i].key@ == result@[a].key@ by {
            if a < np {
                lemma_first_in_range(all@, result@[a].key@);
                let i = first_with_key(all@, result@[a].key@)->0;
                assert(all@[i].key@ == result@[a].key@);
            } else {
                let x = a - np;
                assert(np + x == a);
                assert(tree_node_is(result@[np + x], es[x], all@, issue_type@, collapsed@, favorites@));
                assert(es[x] == entries(out@)[x]);
                assert(out@[x].0 < keys@.len());
                let i = es[x].0;
                assert(all@[i].key@ == result@[a].key@);
            }
        }
        assert forall|k: Seq<char>| pinned_keys(all@, favorites@).contains(k) <==> exists|a: int| 0 <= a < np && #[trigger] result@[a].key@ == k by {
            if pinned_keys(all@, favorites@).contains(k) {
                assert(listed_key(pk@, k));
                let a = choose|a: int| 0 <= a < pk@.len() && #[trigger] pk@[a]@ == k;
                assert(result@[a].key@ == k);
            }
            if exists|a: int| 0 <= a < np && #[trigger] result@[a].key@ == k {
                let a = choose|a: int| 0 <= a < np && #[trigger] result@[a].key@ == k;
                assert(pk@[a]@ == k);
                assert(listed_key(pk@, k));
            }
        }
    }
    result
}

/// A tree node shows children exactly when some shown issue hangs under it,
/// whether or not the node is collapsed: collapsing only closes the node.
/// Pinned favorites show no children and are open.
pub proof fn law_children_shown_whatever_collapsed(
    issues: Seq<Issue>,
    issue_type: Seq<char>,
    collapsed: Set<Seq<char>>,
    favorites: Set<Seq<char>>,
    r: Seq<TreeNode>,
)
    requires
        tree_nodes_ok(r, issues, issue_type, collapsed, favorites),
    ensures
        ({
            let np = r.len() - tree_entries(issues, issue_type, collapsed).len();
            &&& forall|a: int| 0 <= a < np ==> !(#[trigger] r[a]).has_children && r[a].expanded
            &&& forall|b: int|
                np <= b < r.len() ==> ((#[trigger] r[b]).has_children <==> exists|j: int|
                    0 <= j < issues.len() && shown(issues, issue_type).contains(issues[j].key@)
                        && eff_parent(issues, j) == r[b].key@)
            &&& forall|b: int| np <= b < r.len() ==> (#[trigger] r[b]).expanded == !collapsed.contains(r[b].key@)
        }),
{
    let es = tree_entries(issues, issue_type, collapsed);
    let np = r.len() - es.len();
    assert forall|a: int| 0 <= a < np implies !(#[trigger] r[a]).has_children && r[a].expanded by {
        assert(pinned_node_is(r[a], r[a].key@, issues));
    }
    assert forall|b: int| np <= b < r.len() implies ((#[trigger] r[b]).has_children <==> exists|j: int|
        0 <= j < issues.len() && shown(issues, issue_type).contains(issues[j].key@)
            && eff_parent(issues, j) == r[b].key@) && r[b].expanded == !collapsed.contains(r[b].key@) by {
        let x = b - np;
        assert(np + x == b);
        assert(tree_node_is(r[np + x], es[x], issues, issue_type, collapsed, favorites));
    }
}

} // verus!
