//! The parent-child hierarchy of issues: ancestor chains, depth, subtree
//! membership and hiding under collapsed nodes.

use vstd::prelude::*;
use crate::issue::Issue;
use crate::keys::{holds, lemma_distinct_within, views, KeySet};

verus! {

/// Whether position `i` holds an issue with key `k`.
pub open spec fn has_key(all: Seq<Issue>, k: Seq<char>, i: int) -> bool {
    0 <= i < all.len() && all[i].key@ == k
}

/// The position of the first issue with key `k`, as `Iterator::find` picks it.
pub open spec fn first_with_key(all: Seq<Issue>, k: Seq<char>) -> Option<int> {
    if exists|i: int| has_key(all, k, i) {
        Some(
            choose|i: int|
                #[trigger] has_key(all, k, i) && forall|j: int| 0 <= j < i ==> all[j].key@ != k,
        )
    } else {
        None
    }
}

/// The parent key recorded on the first issue with key `k`, empty if there is none.
pub open spec fn parent_of(all: Seq<Issue>, k: Seq<char>) -> Seq<char> {
    match first_with_key(all, k) {
        Some(i) => all[i].parent@,
        None => seq![],
    }
}

pub proof fn lemma_first_with_key(all: Seq<Issue>, k: Seq<char>, i: int)
    requires
        has_key(all, k, i),
        forall|j: int| 0 <= j < i ==> all[j].key@ != k,
    ensures
        first_with_key(all, k) == Some(i),
{
    let c = choose|c: int|
        #[trigger] has_key(all, k, c) && forall|j: int| 0 <= j < c ==> all[j].key@ != k;
    assert(has_key(all, k, c) && forall|j: int| 0 <= j < c ==> all[j].key@ != k);
    if c < i {
        assert(all[c].key@ != k);
    } else if c > i {
        assert(all[i].key@ != k);
    }
}

proof fn lemma_least(all: Seq<Issue>, k: Seq<char>, i: int)
    requires
        has_key(all, k, i),
    ensures
        exists|m: int| #[trigger] has_key(all, k, m) && forall|j: int| 0 <= j < m ==> all[j].key@ != k,
    decreases i,
{
    if exists|j: int| 0 <= j < i && all[j].key@ == k {
        let j = choose|j: int| 0 <= j < i && all[j].key@ == k;
        lemma_least(all, k, j);
    } else {
        assert(has_key(all, k, i) && forall|j: int| 0 <= j < i ==> all[j].key@ != k);
    }
}

/// The first issue with a key is the first position that holds it.
pub proof fn lemma_first_in_range(all: Seq<Issue>, k: Seq<char>)
    ensures
        first_with_key(all, k) matches Some(i) ==> has_key(all, k, i) && forall|j: int|
            0 <= j < i ==> all[j].key@ != k,
        first_with_key(all, k) is None ==> forall|j: int| 0 <= j < all.len() ==> all[j].key@ != k,
{
    if exists|i: int| has_key(all, k, i) {
        let i = choose|i: int| has_key(all, k, i);
        lemma_least(all, k, i);
    } else {
        assert forall|j: int| 0 <= j < all.len() implies all[j].key@ != k by {
            if all[j].key@ == k {
                assert(has_key(all, k, j));
            }
        }
    }
}

/// Finds the first issue with a key.
pub fn find_key(all: &[Issue], key: &String) -> (r: Option<usize>)
    ensures
        match r {
            Some(i) => i < all@.len() && first_with_key(all@, key@) == Some(i as int),
            None => first_with_key(all@, key@) is None,
        },
{
    let mut i: usize = 0;
    while i < all.len()
        invariant
            i <= all.len(),
            forall|j: int| 0 <= j < i ==> all@[j].key@ != key@,
        decreases all.len() - i,
    {
        if all[i].key == *key {
            proof {
                lemma_first_with_key(all@, key@, i as int);
            }
            return Some(i);
        }
        i = i + 1;
    }
    None
}

/// The parent key recorded for a key, empty where no issue has the key.
pub fn parent_key_of(all: &[Issue], key: &String) -> (r: String)
    ensures
        r@ == parent_of(all@, key@),
{
    match find_key(all, key) {
        Some(i) => all[i].parent.clone(),
        None => String::new(),
    }
}

/// The chain of keys above a starting key: `chain(0)` is the start and each
/// next one is the parent recorded for the one before.
pub open spec fn chain(all: Seq<Issue>, start: Seq<char>, d: nat) -> Seq<char>
    decreases d,
{
    if d == 0 {
        start
    } else {
        parent_of(all, chain(all, start, (d - 1) as nat))
    }
}

/// Whether the walk up the chain stops at step `d`: the key there is empty,
/// was met before, or the step limit is reached.
pub open spec fn chain_stops(all: Seq<Issue>, start: Seq<char>, d: nat, cap: nat) -> bool {
    ||| chain(all, start, d).len() == 0
    ||| d >= cap
    ||| exists|j: nat| j < d && chain(all, start, j) == chain(all, start, d)
}

/// The first `n` keys of a chain.
pub open spec fn chain_prefix(all: Seq<Issue>, start: Seq<char>, n: nat) -> Seq<Seq<char>> {
    Seq::new(n, |j: int| chain(all, start, j as nat))
}

/// How many ancestors an issue has: the steps up its parent chain before an
/// empty or repeated key, at most as many as there are issues.
pub fn issue_depth(issue: &Issue, all: &[Issue]) -> (r: i32)
    requires
        all@.len() <= i32::MAX,
    ensures
        r >= 0,
        chain_stops(all@, issue.parent@, r as nat, all@.len()),
        forall|j: nat| j < r ==> !chain_stops(all@, issue.parent@, j, all@.len()),
{
    let ghost start = issue.parent@;
    let n = all.len();
    let mut depth: usize = 0;
    let mut parent = issue.parent.clone();
    let mut visited: Vec<String> = Vec::new();
    assert(views(visited@) =~= chain_prefix(all@, start, 0));
    while !parent.as_str().is_empty() && !holds(&visited, &parent) && depth < n
        invariant
            depth <= n,
            n == all@.len(),
            parent@ == chain(all@, start, depth as nat),
            views(visited@) == chain_prefix(all@, start, depth as nat),
            forall|j: nat| j < depth ==> !chain_stops(all@, start, j, n as nat),
        decreases n - depth,
    {
        proof {
            assert forall|j: nat| j < depth implies chain(all@, start, j) != chain(
                all@,
                start,
                depth as nat,
            ) by {
                assert(views(visited@)[j as int] == chain(all@, start, j));
            }
        }
        let ghost old_visited = views(visited@);
        visited.push(parent.clone());
        assert(views(visited@) =~= old_visited.push(parent@));
        let next = parent_key_of(all, &parent);
        depth = depth + 1;
        parent = next;
        assert(views(visited@) =~= chain_prefix(all@, start, depth as nat));
    }
    proof {
        if !(parent@.len() == 0) && !(depth >= n) {
            let k = choose|k: int| 0 <= k < views(visited@).len() && views(visited@)[k] == parent@;
            assert(chain(all@, start, k as nat) == chain(all@, start, depth as nat));
        }
    }
    depth as i32
}

/// The key reached after `i` steps up from `k` when every step finds an
/// issue with a non-empty parent; `None` once a step fails.
pub open spec fn ancestor_walk(all: Seq<Issue>, k: Seq<char>, i: nat) -> Option<Seq<char>>
    decreases i,
{
    if i == 0 {
        Some(k)
    } else {
        match ancestor_walk(all, k, (i - 1) as nat) {
            Some(x) => match first_with_key(all, x) {
                Some(j) => if all[j].parent@.len() > 0 {
                    Some(all[j].parent@)
                } else {
                    None
                },
                None => None,
            },
            None => None,
        }
    }
}

proof fn lemma_walk_stays_none(all: Seq<Issue>, k: Seq<char>, i: nat, j: nat)
    requires
        i <= j,
        ancestor_walk(all, k, i) is None,
    ensures
        ancestor_walk(all, k, j) is None,
    decreases j - i,
{
    if i < j {
        lemma_walk_stays_none(all, k, i, (j - 1) as nat);
    }
}

/// Whether an issue lies in the subtree under `root`: always for an empty
/// root; else when the issue's key or one of its first ancestors (at most one
/// per issue) is the root.
pub open spec fn in_subtree(all: Seq<Issue>, key: Seq<char>, root: Seq<char>) -> bool {
    ||| root.len() == 0
    ||| exists|i: nat| i <= all.len() && ancestor_walk(all, key, i) == Some(root)
}

/// Whether an issue lies in the subtree under `root`.
pub fn belongs_to_subtree(issue: &Issue, root: &str, all: &[Issue]) -> (r: bool)
    requires
        all@.len() < usize::MAX,
    ensures
        r == in_subtree(all@, issue.key@, root@),
{
    if root.is_empty() {
        return true;
    }
    let root_s = root.to_owned();
    let mut key = issue.key.clone();
    let mut t: usize = 0;
    while t <= all.len()
        invariant
            t <= all.len() + 1,
            all@.len() < usize::MAX,
            root_s@ == root@,
            root@.len() > 0,
            ancestor_walk(all@, issue.key@, t as nat) == Some(key@),
            forall|j: nat| j < t ==> ancestor_walk(all@, issue.key@, j) != Some(root@),
        decreases all.len() + 1 - t,
    {
        if key == root_s {
            return true;
        }
        let found = find_key(all, &key);
        match found {
            None => {
                proof {
                    assert(ancestor_walk(all@, issue.key@, (t + 1) as nat) is None);
                    assert forall|j: nat| j <= all.len() implies ancestor_walk(all@, issue.key@, j)
                        != Some(root@) by {
                        if j > t {
                            lemma_walk_stays_none(all@, issue.key@, (t + 1) as nat, j);
                        }
                    }
                }
                return false;
            },
            Some(i) => {
                if all[i].parent.as_str().is_empty() {
                    proof {
                        assert(ancestor_walk(all@, issue.key@, (t + 1) as nat) is None);
                        assert forall|j: nat| j <= all.len() implies ancestor_walk(
                            all@,
                            issue.key@,
                            j,
                        ) != Some(root@) by {
                            if j > t {
                                lemma_walk_stays_none(all@, issue.key@, (t + 1) as nat, j);
                            }
                        }
                    }
                    return false;
                }
                key = all[i].parent.clone();
            },
        }
        t = t + 1;
    }
    false
}

/// Whether the walk up from `start` reaches step `d`: every key up to and
/// including step `d` is non-empty and new.
pub open spec fn chain_reaches(all: Seq<Issue>, start: Seq<char>, d: nat) -> bool {
    forall|j: nat|
        j <= d ==> {
            &&& #[trigger] chain(all, start, j).len() > 0
            &&& forall|k: nat| k < j ==> chain(all, start, k) != chain(all, start, j)
        }
}

/// Whether an issue is hidden because a node above it is collapsed.
pub open spec fn hidden_under(all: Seq<Issue>, issue: Issue, collapsed: Set<Seq<char>>) -> bool {
    exists|d: nat|
        chain_reaches(all, issue.parent@, d) && collapsed.contains(
            #[trigger] chain(all, issue.parent@, d),
        )
}

/// The keys that the walk up a chain can meet: the start and every parent key.
pub open spec fn chain_pool(all: Seq<Issue>, start: Seq<char>) -> Seq<Seq<char>> {
    all.map_values(|x: Issue| x.parent@).push(start)
}

proof fn lemma_chain_in_pool(all: Seq<Issue>, start: Seq<char>, d: nat)
    requires
        chain(all, start, d).len() > 0,
    ensures
        chain_pool(all, start).contains(chain(all, start, d)),
{
    let pool = chain_pool(all, start);
    if d == 0 {
        assert(pool[all.len() as int] == start);
    } else {
        let prev = chain(all, start, (d - 1) as nat);
        lemma_first_in_range(all, prev);
        match first_with_key(all, prev) {
            Some(i) => {
                assert(pool[i] == all[i].parent@);
            },
            None => {},
        }
    }
}

/// Whether an issue is hidden because one of the nodes above it is collapsed.
pub fn hidden_by_collapsed(issue: &Issue, all: &[Issue], collapsed: &KeySet) -> (r: bool)
    requires
        all@.len() < usize::MAX,
    ensures
        r == hidden_under(all@, *issue, collapsed@),
{
    let ghost start = issue.parent@;
    let ghost pool = chain_pool(all@, start);
    let mut depth: usize = 0;
    let mut parent = issue.parent.clone();
    let mut visited: Vec<String> = Vec::new();
    assert(views(visited@) =~= chain_prefix(all@, start, 0));
    while !parent.as_str().is_empty() && !holds(&visited, &parent)
        invariant
            start == issue.parent@,
            all@.len() < usize::MAX,
            pool == chain_pool(all@, start),
            parent@ == chain(all@, start, depth as nat),
            views(visited@) == chain_prefix(all@, start, depth as nat),
            views(visited@).no_duplicates(),
            forall|i: int| 0 <= i < depth ==> pool.contains(#[trigger] views(visited@)[i]),
            depth > 0 ==> chain_reaches(all@, start, (depth - 1) as nat),
            forall|d: nat| d < depth ==> !collapsed@.contains(#[trigger] chain(all@, start, d)),
        decreases pool.len() - depth,
    {
        proof {
            assert forall|j: nat| j < depth implies chain(all@, start, j) != chain(
                all@,
                start,
                depth as nat,
            ) by {
                assert(views(visited@)[j as int] == chain(all@, start, j));
            }
            assert(chain_reaches(all@, start, depth as nat)) by {
                assert forall|j: nat| j <= depth implies {
                    &&& #[trigger] chain(all@, start, j).len() > 0
                    &&& forall|k: nat| k < j ==> chain(all@, start, k) != chain(all@, start, j)
                } by {
                    if j < depth {
                    }
                }
            }
            lemma_chain_in_pool(all@, start, depth as nat);
            let next_visited = views(visited@).push(parent@);
            assert(next_visited.no_duplicates()) by {
                assert forall|p: int, q: int| 0 <= p < next_visited.len() && 0 <= q < next_visited.len() && p != q implies next_visited[p] != next_visited[q] by {
                    if p < depth && q < depth {
                    } else if p == depth {
                        assert(next_visited[q] == chain(all@, start, q as nat));
                    } else {
                        assert(next_visited[p] == chain(all@, start, p as nat));
                    }
                }
            }
            assert forall|i: int| 0 <= i < next_visited.len() implies pool.contains(#[trigger] next_visited[i]) by {
                if i < depth {
                    assert(next_visited[i] == views(visited@)[i]);
                }
            }
            lemma_distinct_within(next_visited, pool);
        }
        if collapsed.contains(&parent) {
            return true;
        }
        assert(depth + 1 <= pool.len());
        let ghost old_visited = views(visited@);
        visited.push(parent.clone());
        assert(views(visited@) =~= old_visited.push(parent@));
        let next = parent_key_of(all, &parent);
        depth = depth + 1;
        parent = next;
        assert(views(visited@) =~= chain_prefix(all@, start, depth as nat));
    }
    proof {
        assert forall|d: nat| chain_reaches(all@, start, d) implies !collapsed@.contains(
            #[trigger] chain(all@, start, d),
        ) by {
            if d >= depth {
                if parent@.len() == 0 {
                    assert(chain(all@, start, depth as nat).len() > 0);
                } else {
                    let k = choose|k: int| 0 <= k < views(visited@).len() && views(visited@)[k] == parent@;
                    assert(chain(all@, start, k as nat) == chain(all@, start, depth as nat));
                }
            }
        }
    }
    false
}

/// Every issue lies in its own subtree.
pub proof fn law_subtree_contains_root(all: Seq<Issue>, key: Seq<char>)
    ensures
        in_subtree(all, key, key),
{
    assert(ancestor_walk(all, key, 0) == Some(key));
}

/// An issue lies in the subtree of the parent recorded on it (on the first
/// issue with its key).
pub proof fn law_child_in_parent_subtree(all: Seq<Issue>, key: Seq<char>, j: int)
    requires
        first_with_key(all, key) == Some(j),
        all[j].parent@.len() > 0,
    ensures
        in_subtree(all, key, all[j].parent@),
{
    lemma_first_in_range(all, key);
    assert(ancestor_walk(all, key, 0) == Some(key));
    assert(ancestor_walk(all, key, 1) == Some(all[j].parent@));
}

/// Collapsing an issue's parent hides the issue.
pub proof fn law_collapsed_parent_hides(all: Seq<Issue>, issue: Issue, collapsed: Set<Seq<char>>)
    requires
        issue.parent@.len() > 0,
        collapsed.contains(issue.parent@),
    ensures
        hidden_under(all, issue, collapsed),
{
    assert(chain(all, issue.parent@, 0) == issue.parent@);
    assert(chain_reaches(all, issue.parent@, 0));
}

} // verus!
