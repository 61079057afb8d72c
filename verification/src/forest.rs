//! The issue forest in display order: issues sorted by key, grouped under
//! their parents and walked depth first from the top-level issues.

use vstd::prelude::*;
use crate::hierarchy::{find_key, first_with_key, lemma_first_in_range};
use crate::issue::Issue;
use crate::keys::{key_less, key_lt, lemma_key_lt_asymmetric, lemma_key_lt_irreflexive, lemma_key_lt_total, lemma_key_lt_transitive, KeySet};
use crate::text::chars_of;

verus! {

/// The key of every issue.
pub open spec fn keys_of(all: Seq<Issue>) -> Seq<Seq<char>> {
    all.map_values(|x: Issue| x.key@)
}

/// Whether position `i` sorts before position `j`: by key, ties by position,
/// as a stable sort by key orders them.
pub open spec fn before(ks: Seq<Seq<char>>, i: int, j: int) -> bool {
    key_lt(ks[i], ks[j]) || (ks[i] == ks[j] && i < j)
}

/// Where insertion sort puts position `x` into the sorted list `r`: after
/// every entry whose key is not greater than its own.
pub open spec fn insert_pos(ks: Seq<Seq<char>>, r: Seq<int>, x: int) -> int
    decreases r.len(),
{
    if r.len() == 0 || !key_lt(ks[x], ks[r.last()]) {
        r.len() as int
    } else {
        insert_pos(ks, r.drop_last(), x)
    }
}

/// The positions `0..n` sorted stably by key.
pub open spec fn key_order(ks: Seq<Seq<char>>, n: nat) -> Seq<int>
    decreases n,
{
    if n == 0 {
        seq![]
    } else {
        let r = key_order(ks, (n - 1) as nat);
        r.insert(insert_pos(ks, r, n - 1), n - 1)
    }
}

/// Whether `r` lists positions of `ks`, each once, in sorted order.
pub open spec fn sorted_positions(ks: Seq<Seq<char>>, r: Seq<int>, n: nat) -> bool {
    &&& r.len() == n
    &&& forall|a: int| 0 <= a < r.len() ==> 0 <= #[trigger] r[a] < n
    &&& r.no_duplicates()
    &&& forall|a: int, b: int| 0 <= a < b < r.len() ==> before(ks, #[trigger] r[a], #[trigger] r[b])
}

proof fn lemma_before_trans(ks: Seq<Seq<char>>, i: int, j: int, k: int)
    requires
        before(ks, i, j),
        before(ks, j, k),
    ensures
        before(ks, i, k),
{
    if key_lt(ks[i], ks[j]) && key_lt(ks[j], ks[k]) {
        lemma_key_lt_transitive(ks[i], ks[j], ks[k]);
    }
}

proof fn lemma_insert_pos_bounds(ks: Seq<Seq<char>>, r: Seq<int>, x: int)
    ensures
        0 <= insert_pos(ks, r, x) <= r.len(),
    decreases r.len(),
{
    if r.len() > 0 && key_lt(ks[x], ks[r.last()]) {
        lemma_insert_pos_bounds(ks, r.drop_last(), x);
    }
}

proof fn lemma_insert_pos_split(ks: Seq<Seq<char>>, r: Seq<int>, x: int)
    requires
        forall|a: int, b: int| 0 <= a < b < r.len() ==> before(ks, #[trigger] r[a], #[trigger] r[b]),
        forall|a: int| 0 <= a < r.len() ==> 0 <= #[trigger] r[a] < x,
        x < ks.len(),
    ensures
        forall|a: int| 0 <= a < insert_pos(ks, r, x) ==> before(ks, #[trigger] r[a], x),
        forall|a: int| insert_pos(ks, r, x) <= a < r.len() ==> before(ks, x, #[trigger] r[a]),
    decreases r.len(),
{
    lemma_insert_pos_bounds(ks, r, x);
    if r.len() == 0 {
    } else if !key_lt(ks[x], ks[r.last()]) {
        lemma_key_lt_total(ks[x], ks[r.last()]);
        assert(before(ks, r.last(), x));
        assert forall|a: int| 0 <= a < r.len() implies before(ks, #[trigger] r[a], x) by {
            if a < r.len() - 1 {
                lemma_before_trans(ks, r[a], r.last(), x);
            }
        }
    } else {
        let q = r.drop_last();
        lemma_insert_pos_split(ks, q, x);
        lemma_insert_pos_bounds(ks, q, x);
        assert(before(ks, x, r.last()));
        assert(insert_pos(ks, r, x) == insert_pos(ks, q, x));
        assert forall|a: int| 0 <= a < insert_pos(ks, r, x) implies before(ks, #[trigger] r[a], x) by {
            assert(r[a] == q[a]);
        }
        assert forall|a: int| insert_pos(ks, r, x) <= a < r.len() implies before(ks, x, #[trigger] r[a]) by {
            if a < q.len() {
                assert(r[a] == q[a]);
            }
        }
    }
}

/// Insertion sort's result lists the positions `0..n` once each, sorted by
/// key with ties in position order.
pub proof fn law_key_order_sorted(ks: Seq<Seq<char>>, n: nat)
    requires
        n <= ks.len(),
    ensures
        sorted_positions(ks, key_order(ks, n), n),
    decreases n,
{
    if n > 0 {
        let r = key_order(ks, (n - 1) as nat);
        law_key_order_sorted(ks, (n - 1) as nat);
        let x = n - 1;
        let p = insert_pos(ks, r, x);
        lemma_insert_pos_bounds(ks, r, x);
        lemma_insert_pos_split(ks, r, x);
        let s = r.insert(p, x);
        assert(s == key_order(ks, n));
        assert forall|a: int| 0 <= a < s.len() implies 0 <= #[trigger] s[a] < n by {
            if a < p {
                assert(s[a] == r[a]);
            } else if a > p {
                assert(s[a] == r[a - 1]);
            }
        }
        assert forall|a: int, b: int| 0 <= a < b < s.len() implies before(ks, #[trigger] s[a], #[trigger] s[b]) by {
            if b < p {
                assert(s[a] == r[a] && s[b] == r[b]);
            } else if b == p {
                assert(s[a] == r[a]);
            } else if a < p {
                assert(s[a] == r[a] && s[b] == r[b - 1]);
                lemma_before_trans(ks, r[a], x, r[b - 1]);
            } else if a == p {
                assert(s[b] == r[b - 1]);
            } else {
                assert(s[a] == r[a - 1] && s[b] == r[b - 1]);
            }
        }
        assert(s.no_duplicates()) by {
            assert forall|a: int, b: int| 0 <= a < s.len() && 0 <= b < s.len() && a != b implies s[a] != s[b] by {
                if a < b {
                    assert(before(ks, s[a], s[b]));
                } else {
                    assert(before(ks, s[b], s[a]));
                }
                if s[a] == s[b] {
                    lemma_key_lt_irreflexive(ks[s[a]]);
                }
            }
        }
    }
}

/// The keys of a list of issues as character vectors.
pub fn key_chars(all: &[Issue]) -> (r: Vec<Vec<char>>)
    ensures
        r@.len() == all@.len(),
        forall|i: int| 0 <= i < all@.len() ==> #[trigger] r@[i]@ == all@[i].key@,
{
    let mut r: Vec<Vec<char>> = Vec::new();
    let mut i: usize = 0;
    while i < all.len()
        invariant
            i <= all.len(),
            r@.len() == i,
            forall|k: int| 0 <= k < i ==> #[trigger] r@[k]@ == all@[k].key@,
        decreases all.len() - i,
    {
        r.push(chars_of(all[i].key.as_str()));
        i = i + 1;
    }
    r
}

/// The positions of the issues, sorted stably by key.
pub fn sorted_by_key(all: &[Issue]) -> (r: Vec<usize>)
    ensures
        r@.map_values(|i: usize| i as int) == key_order(keys_of(all@), all@.len()),
{
    let ghost ks = keys_of(all@);
    let kc = key_chars(all);
    let mut r: Vec<usize> = Vec::new();
    let mut n: usize = 0;
    assert(r@.map_values(|i: usize| i as int) =~= key_order(ks, 0));
    while n < all.len()
        invariant
            n <= all.len(),
            ks == keys_of(all@),
            kc@.len() == all@.len(),
            forall|i: int| 0 <= i < all@.len() ==> #[trigger] kc@[i]@ == ks[i],
            r@.map_values(|i: usize| i as int) == key_order(ks, n as nat),
            forall|a: int| 0 <= a < r@.len() ==> #[trigger] r@[a] < n,
        decreases all.len() - n,
    {
        let ghost rv = r@.map_values(|i: usize| i as int);
        let mut j: usize = r.len();
        assert(rv.take(j as int) =~= rv);
        while j > 0 && key_less(&kc[n], &kc[r[j - 1]])
            invariant
                j <= r@.len(),
                n < all@.len(),
                kc@.len() == all@.len(),
                forall|i: int| 0 <= i < all@.len() ==> #[trigger] kc@[i]@ == ks[i],
                forall|a: int| 0 <= a < r@.len() ==> #[trigger] r@[a] < n,
                rv == r@.map_values(|i: usize| i as int),
                insert_pos(ks, rv, n as int) == insert_pos(ks, rv.take(j as int), n as int),
            decreases j,
        {
            assert(rv.take(j as int).last() == rv[j - 1]);
            assert(rv.take(j as int).drop_last() =~= rv.take(j - 1));
            j = j - 1;
        }
        proof {
            let t = rv.take(j as int);
            if j > 0 {
                assert(t.last() == rv[j - 1]);
            }
            assert(insert_pos(ks, t, n as int) == j);
        }
        r.insert(j, n);
        assert(r@.map_values(|i: usize| i as int) =~= rv.insert(j as int, n as int));
        n = n + 1;
    }
    r
}


/// The parent an issue hangs under in the display: its recorded parent when
/// some issue has that key, else the top level (the empty key).
pub open spec fn eff_parent(all: Seq<Issue>, i: int) -> Seq<char> {
    let p = all[i].parent@;
    if p.len() == 0 || first_with_key(all, p) is None {
        seq![]
    } else {
        p
    }
}

/// The display parent of every issue.
pub fn effective_parents(all: &[Issue]) -> (r: Vec<String>)
    ensures
        r@.len() == all@.len(),
        forall|i: int| 0 <= i < all@.len() ==> #[trigger] r@[i]@ == eff_parent(all@, i),
{
    let mut r: Vec<String> = Vec::new();
    let mut i: usize = 0;
    while i < all.len()
        invariant
            i <= all.len(),
            r@.len() == i,
            forall|k: int| 0 <= k < i ==> #[trigger] r@[k]@ == eff_parent(all@, k),
        decreases all.len() - i,
    {
        let p = &all[i].parent;
        let e = if p.as_str().is_empty() {
            String::new()
        } else {
            match find_key(all, p) {
                Some(_) => p.clone(),
                None => String::new(),
            }
        };
        r.push(e);
        i = i + 1;
    }
    r
}

/// What a depth-first walk of the forest reads: keys, display parents, the
/// sorted order, which positions take part, and which keys are collapsed.
pub struct Forest {
    pub keys: Seq<Seq<char>>,
    pub eff: Seq<Seq<char>>,
    pub order: Seq<int>,
    pub member: Seq<bool>,
    pub collapsed: Set<Seq<char>>,
}

/// Whether a forest's lists fit together.
pub open spec fn forest_ok(f: Forest) -> bool {
    &&& f.eff.len() == f.keys.len()
    &&& f.member.len() == f.keys.len()
    &&& forall|j: int| 0 <= j < f.order.len() ==> 0 <= #[trigger] f.order[j] < f.keys.len()
}

/// Walks the children of `p` in sorted order from the `j`-th entry on: each
/// unvisited member child is listed at `depth`, marked visited, and followed
/// by its own subtree unless it is collapsed. Returns the listed positions
/// with their depths and the visited keys afterwards. `fuel` bounds the
/// nesting.
pub open spec fn walk_group(
    f: Forest,
    p: Seq<char>,
    j: int,
    depth: int,
    visited: Set<Seq<char>>,
    fuel: nat,
) -> (Seq<(int, int)>, Set<Seq<char>>)
    decreases fuel, f.order.len() + 1 - j,
    when forest_ok(f) && 0 <= j
{
    if j >= f.order.len() {
        (seq![], visited)
    } else {
        let i = f.order[j];
        let k = f.keys[i];
        if !(f.member[i] && f.eff[i] == p) || visited.contains(k) {
            walk_group(f, p, j + 1, depth, visited, fuel)
        } else {
            let v1 = visited.insert(k);
            let below = if f.collapsed.contains(k) {
                (seq![], v1)
            } else {
                walk(f, k, depth + 1, v1, fuel)
            };
            let rest = walk_group(f, p, j + 1, depth, below.1, fuel);
            (seq![(i, depth)] + below.0 + rest.0, rest.1)
        }
    }
}

/// Walks the subtree under the key `p`.
pub open spec fn walk(f: Forest, p: Seq<char>, depth: int, visited: Set<Seq<char>>, fuel: nat) -> (
    Seq<(int, int)>,
    Set<Seq<char>>,
)
    decreases fuel, 0int,
    when forest_ok(f)
{
    if fuel == 0 {
        (seq![], visited)
    } else {
        walk_group(f, p, 0, depth, visited, (fuel - 1) as nat)
    }
}

/// The view of a list of (position, depth) entries.
pub open spec fn entries(v: Seq<(usize, i32)>) -> Seq<(int, int)> {
    v.map_values(|e: (usize, i32)| (e.0 as int, e.1 as int))
}

/// The forest that exec data stands for.
pub open spec fn forest_view(
    keys: Seq<String>,
    eff: Seq<String>,
    order: Seq<usize>,
    member: Seq<bool>,
    collapsed: Set<Seq<char>>,
) -> Forest {
    Forest {
        keys: keys.map_values(|s: String| s@),
        eff: eff.map_values(|s: String| s@),
        order: order.map_values(|i: usize| i as int),
        member: member,
        collapsed: collapsed,
    }
}

pub(crate) fn walk_exec(
    keys: &Vec<String>,
    eff: &Vec<String>,
    order: &Vec<usize>,
    member: &Vec<bool>,
    collapsed: &KeySet,
    p: &String,
    depth: i32,
    visited: &mut KeySet,
    out: &mut Vec<(usize, i32)>,
    fuel: usize,
)
    requires
        forest_ok(forest_view(keys@, eff@, order@, member@, collapsed@)),
        0 <= depth,
        depth + fuel <= i32::MAX,
        forall|q: int| 0 <= q < old(out)@.len() ==> (#[trigger] old(out)@[q]).0 < keys@.len(),
    ensures
        forall|q: int| 0 <= q < final(out)@.len() ==> (#[trigger] final(out)@[q]).0 < keys@.len(),
        ({
            let w = walk(
                forest_view(keys@, eff@, order@, member@, collapsed@),
                p@,
                depth as int,
                old(visited)@,
                fuel as nat,
            );
            &&& entries(final(out)@) == entries(old(out)@) + w.0
            &&& final(visited)@ == w.1
        }),
    decreases fuel, 0int,
{
    if fuel == 0 {
        assert(entries(out@) =~= entries(out@) + Seq::<(int, int)>::empty());
        return;
    }
    walk_group_exec(keys, eff, order, member, collapsed, p, depth, visited, out, fuel - 1);
}

fn walk_group_exec(
    keys: &Vec<String>,
    eff: &Vec<String>,
    order: &Vec<usize>,
    member: &Vec<bool>,
    collapsed: &KeySet,
    p: &String,
    depth: i32,
    visited: &mut KeySet,
    out: &mut Vec<(usize, i32)>,
    fuel: usize,
)
    requires
        forest_ok(forest_view(keys@, eff@, order@, member@, collapsed@)),
        0 <= depth,
        depth + fuel + 1 <= i32::MAX,
        forall|q: int| 0 <= q < old(out)@.len() ==> (#[trigger] old(out)@[q]).0 < keys@.len(),
    ensures
        forall|q: int| 0 <= q < final(out)@.len() ==> (#[trigger] final(out)@[q]).0 < keys@.len(),
        ({
            let w = walk_group(
                forest_view(keys@, eff@, order@, member@, collapsed@),
                p@,
                0,
                depth as int,
                old(visited)@,
                fuel as nat,
            );
            &&& entries(final(out)@) == entries(old(out)@) + w.0
            &&& final(visited)@ == w.1
        }),
    decreases fuel, 1int,
{
    let ghost f = forest_view(keys@, eff@, order@, member@, collapsed@);
    let ghost v0 = visited@;
    let ghost out0 = entries(out@);
    let mut j: usize = 0;
    assert(out0 =~= out0 + Seq::<(int, int)>::empty());
    while j < order.len()
        invariant
            j <= order@.len(),
            f == forest_view(keys@, eff@, order@, member@, collapsed@),
            forest_ok(f),
            0 <= depth,
            depth + fuel + 1 <= i32::MAX,
            forall|q: int| 0 <= q < out@.len() ==> (#[trigger] out@[q]).0 < keys@.len(),
            walk_group(f, p@, 0, depth as int, v0, fuel as nat).1 == walk_group(
                f,
                p@,
                j as int,
                depth as int,
                visited@,
                fuel as nat,
            ).1,
            out0 + walk_group(f, p@, 0, depth as int, v0, fuel as nat).0 == entries(out@)
                + walk_group(f, p@, j as int, depth as int, visited@, fuel as nat).0,
        decreases order@.len() - j,
    {
        let i = order[j];
        assert(f.order[j as int] == i as int);
        assert(f.keys[i as int] == keys@[i as int]@);
        assert(f.eff[i as int] == eff@[i as int]@);
        if !(member[i] && eff[i] == *p) || visited.contains(&keys[i]) {
            j = j + 1;
        } else {
            let ghost vis = visited@;
            let k = keys[i].clone();
            visited.insert(k);
            let ghost before_out = entries(out@);
            out.push((i, depth));
            assert(entries(out@) =~= before_out + seq![(i as int, depth as int)]);
            if !collapsed.contains(&keys[i]) {
                let ghost mid = entries(out@);
                walk_exec(keys, eff, order, member, collapsed, &keys[i], depth + 1, visited, out, fuel);
            }
            proof {
                let v1 = vis.insert(keys@[i as int]@);
                let below = if f.collapsed.contains(keys@[i as int]@) {
                    (Seq::<(int, int)>::empty(), v1)
                } else {
                    walk(f, keys@[i as int]@, depth + 1, v1, fuel as nat)
                };
                let rest = walk_group(f, p@, j + 1, depth as int, below.1, fuel as nat);
                assert(walk_group(f, p@, j as int, depth as int, vis, fuel as nat) == (seq![
                    (i as int, depth as int),
                ] + below.0 + rest.0, rest.1));
                assert(entries(out@) =~= before_out + seq![(i as int, depth as int)] + below.0);
                assert(visited@ == below.1);
            }
            j = j + 1;
        }
    }
    assert(walk_group(f, p@, j as int, depth as int, visited@, fuel as nat).0 =~= Seq::<(int, int)>::empty());
    assert(entries(out@) + Seq::<(int, int)>::empty() =~= entries(out@));
}


/// The positions in `order` whose key is not in `v`, in order.
pub open spec fn unvisited(keys: Seq<Seq<char>>, order: Seq<int>, v: Set<Seq<char>>) -> Seq<int>
    decreases order.len(),
{
    if order.len() == 0 {
        seq![]
    } else {
        let r = unvisited(keys, order.drop_last(), v);
        if !v.contains(keys[order.last()]) {
            r.push(order.last())
        } else {
            r
        }
    }
}

/// The whole list of issues as a forest walked with nothing collapsed.
pub open spec fn full_forest(all: Seq<Issue>) -> Forest {
    Forest {
        keys: keys_of(all),
        eff: Seq::new(all.len(), |i: int| eff_parent(all, i)),
        order: key_order(keys_of(all), all.len()),
        member: Seq::new(all.len(), |i: int| true),
        collapsed: Set::empty(),
    }
}

/// The display order of all issues: depth first from the top level, children
/// sorted by key and each key listed once; then the issues the walk cannot
/// reach (those on a parent cycle), sorted by key.
pub open spec fn display_order(all: Seq<Issue>) -> Seq<int> {
    let f = full_forest(all);
    let w = walk(f, seq![], 0, Set::empty(), (all.len() + 1) as nat);
    w.0.map_values(|e: (int, int)| e.0) + unvisited(f.keys, f.order, w.1)
}

/// The positions of the issues in display order.
pub fn hierarchical_issues(all: &[Issue]) -> (r: Vec<usize>)
    requires
        all@.len() < i32::MAX,
    ensures
        r@.map_values(|i: usize| i as int) == display_order(all@),
        forall|q: int| 0 <= q < r@.len() ==> #[trigger] r@[q] < all@.len(),
{
    let n = all.len();
    let mut keys: Vec<String> = Vec::new();
    let mut member: Vec<bool> = Vec::new();
    let mut i: usize = 0;
    while i < n
        invariant
            i <= n,
            n == all@.len(),
            keys@.len() == i,
            member@.len() == i,
            forall|k: int| 0 <= k < i ==> #[trigger] keys@[k]@ == all@[k].key@,
            forall|k: int| 0 <= k < i ==> #[trigger] member@[k],
        decreases n - i,
    {
        keys.push(all[i].key.clone());
        member.push(true);
        i = i + 1;
    }
    let eff = effective_parents(all);
    let order = sorted_by_key(all);
    let collapsed = KeySet::new();
    let ghost f = forest_view(keys@, eff@, order@, member@, collapsed@);
    proof {
        let g = full_forest(all@);
        assert(f.keys =~= g.keys);
        assert(f.eff =~= g.eff);
        assert(f.member =~= g.member);
        assert(f.order == g.order);
        assert(f.collapsed =~= g.collapsed);
        law_key_order_sorted(keys_of(all@), all@.len());
    }
    let mut visited = KeySet::new();
    let mut out: Vec<(usize, i32)> = Vec::new();
    let top = String::new();
    walk_exec(&keys, &eff, &order, &member, &collapsed, &top, 0, &mut visited, &mut out, n + 1);
    let ghost w = walk(f, seq![], 0, Set::empty(), (n + 1) as nat);
    assert(entries(out@) =~= w.0);
    let mut r: Vec<usize> = Vec::new();
    let mut j: usize = 0;
    while j < out.len()
        invariant
            j <= out@.len(),
            r@.map_values(|i: usize| i as int) == w.0.take(j as int).map_values(|e: (int, int)| e.0),
            entries(out@) == w.0,
            forall|q: int| 0 <= q < out@.len() ==> (#[trigger] out@[q]).0 < keys@.len(),
            keys@.len() == all@.len(),
            forall|q: int| 0 <= q < r@.len() ==> #[trigger] r@[q] < all@.len(),
        decreases out@.len() - j,
    {
        let ghost before = r@.map_values(|i: usize| i as int);
        r.push(out[j].0);
        assert(entries(out@)[j as int] == (out@[j as int].0 as int, out@[j as int].1 as int));
        assert(r@.map_values(|i: usize| i as int) =~= before.push(out@[j as int].0 as int));
        j = j + 1;
        assert(w.0.take(j as int).map_values(|e: (int, int)| e.0) =~= w.0.take(j - 1).map_values(|e: (int, int)| e.0).push(w.0[j - 1].0));
    }
    assert(w.0.take(j as int) =~= w.0);
    let ghost head = r@.map_values(|i: usize| i as int);
    let ghost ov = order@.map_values(|i: usize| i as int);
    let mut t: usize = 0;
    while t < order.len()
        invariant
            t <= order@.len(),
            ov == order@.map_values(|i: usize| i as int),
            ov == f.order,
            forest_ok(f),
            f.keys == keys@.map_values(|s: String| s@),
            r@.map_values(|i: usize| i as int) == head + unvisited(f.keys, ov.take(t as int), w.1),
            visited@ == w.1,
            keys@.len() == all@.len(),
            forall|q: int| 0 <= q < r@.len() ==> #[trigger] r@[q] < all@.len(),
        decreases order@.len() - t,
    {
        let x = order[t];
        assert(ov.take(t + 1).drop_last() =~= ov.take(t as int));
        assert(ov.take(t + 1).last() == x as int);
        assert(f.keys[x as int] == keys@[x as int]@);
        if !visited.contains(&keys[x]) {
            let ghost before = r@.map_values(|i: usize| i as int);
            r.push(x);
            assert(r@.map_values(|i: usize| i as int) =~= before.push(x as int));
        }
        t = t + 1;
    }
    assert(ov.take(t as int) =~= ov);
    r
}

/// What a walk lists, given the keys visited before and after it: positions
/// of the forest, whose keys are the newly visited ones, each key once.
pub open spec fn walk_lists(
    f: Forest,
    es: Seq<(int, int)>,
    before: Set<Seq<char>>,
    after: Set<Seq<char>>,
) -> bool {
    &&& before.subset_of(after)
    &&& forall|a: int|
        #![trigger es[a]]
        0 <= a < es.len() ==> 0 <= es[a].0 < f.keys.len() && after.contains(f.keys[es[a].0])
            && !before.contains(f.keys[es[a].0])
    &&& forall|a: int, b: int|
        #![trigger es[a], es[b]]
        0 <= a < b < es.len() ==> f.keys[es[a].0] != f.keys[es[b].0]
    &&& forall|k: Seq<char>|
        after.contains(k) && !before.contains(k) ==> exists|a: int|
            #![trigger es[a]]
            0 <= a < es.len() && f.keys[es[a].0] == k
}

proof fn lemma_lists_join(
    f: Forest,
    x: Seq<(int, int)>,
    y: Seq<(int, int)>,
    v0: Set<Seq<char>>,
    v1: Set<Seq<char>>,
    v2: Set<Seq<char>>,
)
    requires
        walk_lists(f, x, v0, v1),
        walk_lists(f, y, v1, v2),
    ensures
        walk_lists(f, x + y, v0, v2),
{
    let z = x + y;
    assert forall|a: int| #![trigger z[a]] 0 <= a < z.len() implies 0 <= z[a].0 < f.keys.len() && v2.contains(f.keys[z[a].0])
        && !v0.contains(f.keys[z[a].0]) by {
        if a < x.len() {
            assert(z[a] == x[a]);
        } else {
            assert(z[a] == y[a - x.len()]);
        }
    }
    assert forall|a: int, b: int| #![trigger z[a], z[b]] 0 <= a < b < z.len() implies f.keys[z[a].0] != f.keys[z[b].0] by {
        if b < x.len() {
            assert(z[a] == x[a] && z[b] == x[b]);
        } else if a >= x.len() {
            assert(z[a] == y[a - x.len()] && z[b] == y[b - x.len()]);
        } else {
            assert(z[a] == x[a] && z[b] == y[b - x.len()]);
        }
    }
    assert forall|k: Seq<char>| v2.contains(k) && !v0.contains(k) implies exists|a: int|
        #![trigger z[a]]
        0 <= a < z.len() && f.keys[z[a].0] == k by {
        if v1.contains(k) {
            let a = choose|a: int| #![trigger x[a]] 0 <= a < x.len() && f.keys[x[a].0] == k;
            assert(z[a] == x[a]);
        } else {
            let b = choose|b: int| #![trigger y[b]] 0 <= b < y.len() && f.keys[y[b].0] == k;
            assert(z[x.len() + b] == y[b]);
        }
    }
}

proof fn lemma_lists_empty(f: Forest, v: Set<Seq<char>>)
    ensures
        walk_lists(f, seq![], v, v),
{
}

proof fn lemma_walk_group_lists(
    f: Forest,
    p: Seq<char>,
    j: int,
    depth: int,
    visited: Set<Seq<char>>,
    fuel: nat,
)
    requires
        forest_ok(f),
        0 <= j,
    ensures
        walk_lists(
            f,
            walk_group(f, p, j, depth, visited, fuel).0,
            visited,
            walk_group(f, p, j, depth, visited, fuel).1,
        ),
    decreases fuel, f.order.len() + 1 - j,
{
    if j >= f.order.len() {
        lemma_lists_empty(f, visited);
    } else {
        let i = f.order[j];
        let k = f.keys[i];
        if !(f.member[i] && f.eff[i] == p) || visited.contains(k) {
            lemma_walk_group_lists(f, p, j + 1, depth, visited, fuel);
        } else {
            let v1 = visited.insert(k);
            let below = if f.collapsed.contains(k) {
                (seq![], v1)
            } else {
                walk(f, k, depth + 1, v1, fuel)
            };
            if f.collapsed.contains(k) {
                lemma_lists_empty(f, v1);
            } else {
                lemma_walk_lists(f, k, depth + 1, v1, fuel);
            }
            let rest = walk_group(f, p, j + 1, depth, below.1, fuel);
            lemma_walk_group_lists(f, p, j + 1, depth, below.1, fuel);
            let head: Seq<(int, int)> = seq![(i, depth)];
            assert(walk_lists(f, head, visited, v1)) by {
                assert forall|k2: Seq<char>| v1.contains(k2) && !visited.contains(k2) implies exists|a: int|
                    #![trigger head[a]]
                    0 <= a < head.len() && f.keys[head[a].0] == k2 by {
                    assert(head[0].0 == i);
                }
            }
            lemma_lists_join(f, head, below.0, visited, v1, below.1);
            lemma_lists_join(f, head + below.0, rest.0, visited, below.1, rest.1);
            assert(walk_group(f, p, j, depth, visited, fuel) == (head + below.0 + rest.0, rest.1));
        }
    }
}

proof fn lemma_walk_lists(f: Forest, p: Seq<char>, depth: int, visited: Set<Seq<char>>, fuel: nat)
    requires
        forest_ok(f),
    ensures
        walk_lists(f, walk(f, p, depth, visited, fuel).0, visited, walk(f, p, depth, visited, fuel).1),
    decreases fuel, 0int,
{
    if fuel == 0 {
        lemma_lists_empty(f, visited);
    } else {
        lemma_walk_group_lists(f, p, 0, depth, visited, (fuel - 1) as nat);
    }
}

proof fn lemma_unvisited_facts(keys: Seq<Seq<char>>, order: Seq<int>, v: Set<Seq<char>>)
    ensures
        forall|a: int|
            0 <= a < unvisited(keys, order, v).len() ==> order.contains(
                #[trigger] unvisited(keys, order, v)[a],
            ) && !v.contains(keys[unvisited(keys, order, v)[a]]),
        forall|x: int| order.contains(x) && !v.contains(keys[x]) ==> unvisited(keys, order, v).contains(x),
        order.no_duplicates() ==> unvisited(keys, order, v).no_duplicates(),
    decreases order.len(),
{
    if order.len() > 0 {
        let o = order.drop_last();
        let u0 = unvisited(keys, o, v);
        let u = unvisited(keys, order, v);
        let x = order.last();
        lemma_unvisited_facts(keys, o, v);
        assert forall|a: int| 0 <= a < u.len() implies order.contains(#[trigger] u[a]) && !v.contains(keys[u[a]]) by {
            if a < u0.len() {
                assert(u[a] == u0[a]);
                let b = choose|b: int| 0 <= b < o.len() && o[b] == u0[a];
                assert(order[b] == o[b]);
            } else {
                assert(u[a] == x);
                assert(order[order.len() - 1] == x);
            }
        }
        assert forall|y: int| order.contains(y) && !v.contains(keys[y]) implies u.contains(y) by {
            let b = choose|b: int| 0 <= b < order.len() && order[b] == y;
            if b < order.len() - 1 {
                assert(o[b] == y);
                assert(o.contains(y));
                let a = choose|a: int| 0 <= a < u0.len() && u0[a] == y;
                if !v.contains(keys[x]) {
                    assert(u[a] == u0[a]);
                } else {
                    assert(u == u0);
                }
            } else {
                assert(u[u.len() - 1] == x);
            }
        }
        if order.no_duplicates() {
            assert(o.no_duplicates()) by {
                assert forall|a: int, b: int| 0 <= a < o.len() && 0 <= b < o.len() && a != b implies o[a] != o[b] by {
                    assert(o[a] == order[a] && o[b] == order[b]);
                }
            }
            if !v.contains(keys[x]) {
                assert(!u0.contains(x)) by {
                    if u0.contains(x) {
                        let a = choose|a: int| 0 <= a < u0.len() && u0[a] == x;
                        assert(o.contains(u0[a]));
                        let b = choose|b: int| 0 <= b < o.len() && o[b] == x;
                        assert(order[b] == order[order.len() - 1]);
                    }
                }
                assert forall|a: int, b: int| 0 <= a < u.len() && 0 <= b < u.len() && a != b implies u[a] != u[b] by {
                    if a < u0.len() && b < u0.len() {
                        assert(u[a] == u0[a] && u[b] == u0[b]);
                    } else if a < u0.len() {
                        assert(u[a] == u0[a] && u[b] == x);
                    } else if b < u0.len() {
                        assert(u[b] == u0[b] && u[a] == x);
                    }
                }
            }
        }
    }
}

/// The numbers `0..n` in order.
spec fn first_numbers(n: nat) -> Seq<int> {
    Seq::new(n, |x: int| x)
}

/// Distinct numbers below `n`, `n` of them: every number below `n` is
/// among them.
proof fn lemma_full_range(r: Seq<int>, n: nat, i: int)
    requires
        r.len() == n,
        r.no_duplicates(),
        forall|a: int| 0 <= a < r.len() ==> 0 <= #[trigger] r[a] < n,
        0 <= i < n,
    ensures
        r.contains(i),
{
    if !r.contains(i) {
        let pool = Seq::new((n - 1) as nat, |x: int| if x < i { x } else { x + 1 });
        assert forall|a: int| 0 <= a < r.len() implies pool.contains(#[trigger] r[a]) by {
            let y = r[a];
            assert(y != i);
            let x = if y < i { y } else { y - 1 };
            assert(pool[x] == y);
        }
        crate::keys::lemma_distinct_within(r, pool);
    }
}

/// With distinct keys, the display order lists every issue exactly once:
/// it is a rearrangement of the positions of the issues.
pub proof fn law_display_order_permutation(all: Seq<Issue>)
    requires
        forall|a: int, b: int| 0 <= a < b < all.len() ==> #[trigger] all[a].key@ != #[trigger] all[b].key@,
    ensures
        display_order(all).len() == all.len(),
        forall|q: int| 0 <= q < display_order(all).len() ==> 0 <= #[trigger] display_order(all)[q] < all.len(),
        display_order(all).no_duplicates(),
        forall|i: int| 0 <= i < all.len() ==> display_order(all).contains(i),
{
    let n = all.len();
    let f = full_forest(all);
    law_key_order_sorted(keys_of(all), n);
    assert(forest_ok(f));
    let w = walk(f, seq![], 0, Set::empty(), (n + 1) as nat);
    lemma_walk_lists(f, seq![], 0, Set::empty(), (n + 1) as nat);
    let ws = w.0.map_values(|e: (int, int)| e.0);
    let u = unvisited(f.keys, f.order, w.1);
    lemma_unvisited_facts(f.keys, f.order, w.1);
    let r = display_order(all);
    assert(r == ws + u);
    assert forall|a: int, b: int| 0 <= a < n && 0 <= b < n && a != b implies f.keys[a] != f.keys[b] by {
        if a < b {
            assert(all[a].key@ != all[b].key@);
        } else {
            assert(all[b].key@ != all[a].key@);
        }
    }
    assert forall|q: int| 0 <= q < r.len() implies 0 <= #[trigger] r[q] < n && (q < ws.len() ==> w.1.contains(
        f.keys[r[q]],
    )) && (q >= ws.len() ==> !w.1.contains(f.keys[r[q]])) by {
        if q < ws.len() {
            assert(r[q] == w.0[q].0);
        } else {
            assert(r[q] == u[q - ws.len()]);
        }
    }
    assert(r.no_duplicates()) by {
        assert forall|a: int, b: int| 0 <= a < r.len() && 0 <= b < r.len() && a != b implies r[a] != r[b] by {
            if a < ws.len() && b < ws.len() {
                assert(r[a] == w.0[a].0 && r[b] == w.0[b].0);
                if a < b {
                    assert(f.keys[w.0[a].0] != f.keys[w.0[b].0]);
                } else {
                    assert(f.keys[w.0[b].0] != f.keys[w.0[a].0]);
                }
            } else if a >= ws.len() && b >= ws.len() {
                assert(r[a] == u[a - ws.len()] && r[b] == u[b - ws.len()]);
            } else {
                assert(0 <= r[a] < n && 0 <= r[b] < n);
            }
        }
    }
    assert forall|i: int| 0 <= i < n implies r.contains(i) by {
        let k = f.keys[i];
        if w.1.contains(k) {
            let a = choose|a: int| #![trigger w.0[a]] 0 <= a < w.0.len() && f.keys[w.0[a].0] == k;
            assert(r[a] == w.0[a].0);
        } else {
            lemma_full_range(f.order, n, i);
            assert(u.contains(i));
            let a = choose|a: int| 0 <= a < u.len() && u[a] == i;
            assert(r[ws.len() + a] == u[a]);
        }
    }
    let all_positions = first_numbers(n);
    assert forall|a: int| 0 <= a < r.len() implies all_positions.contains(#[trigger] r[a]) by {
        assert(all_positions[r[a]] == r[a]);
    }
    crate::keys::lemma_distinct_within(r, all_positions);
    assert forall|a: int| 0 <= a < all_positions.len() implies r.contains(#[trigger] all_positions[a]) by {
        assert(r.contains(a));
    }
    assert(all_positions.no_duplicates());
    crate::keys::lemma_distinct_within(all_positions, r);
}

} // verus!
