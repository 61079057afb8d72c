//! Issue keys: their order (that of `String`'s comparison, code point by
//! code point), sets of keys, and counting arguments about distinct keys.

use vstd::prelude::*;
use vstd::set_lib::lemma_len_subset;
use crate::text::{chars_of, chars_eq};

verus! {

/// Whether `a` sorts strictly before `b`: lexicographic order by code point,
/// which is the byte order `String` compares UTF-8 text in.
pub open spec fn key_lt(a: Seq<char>, b: Seq<char>) -> bool
    decreases a.len(),
{
    if a.len() == 0 {
        b.len() > 0
    } else if b.len() == 0 {
        false
    } else if a[0] != b[0] {
        a[0] < b[0]
    } else {
        key_lt(a.drop_first(), b.drop_first())
    }
}

pub proof fn lemma_key_lt_irreflexive(a: Seq<char>)
    ensures
        !key_lt(a, a),
    decreases a.len(),
{
    if a.len() > 0 {
        lemma_key_lt_irreflexive(a.drop_first());
    }
}

pub proof fn lemma_key_lt_transitive(a: Seq<char>, b: Seq<char>, c: Seq<char>)
    requires
        key_lt(a, b),
        key_lt(b, c),
    ensures
        key_lt(a, c),
    decreases a.len(),
{
    if a.len() > 0 && b.len() > 0 && c.len() > 0 {
        if a[0] == b[0] && b[0] == c[0] {
            lemma_key_lt_transitive(a.drop_first(), b.drop_first(), c.drop_first());
        }
    }
}

pub proof fn lemma_key_lt_total(a: Seq<char>, b: Seq<char>)
    ensures
        a == b || key_lt(a, b) || key_lt(b, a),
    decreases a.len(),
{
    if a.len() > 0 && b.len() > 0 {
        if a[0] == b[0] {
            lemma_key_lt_total(a.drop_first(), b.drop_first());
            if a.drop_first() == b.drop_first() {
                assert(a =~= seq![a[0]] + a.drop_first());
                assert(b =~= seq![b[0]] + b.drop_first());
            }
        }
    } else if a.len() == 0 && b.len() == 0 {
        assert(a =~= b);
    }
}

pub proof fn lemma_key_lt_asymmetric(a: Seq<char>, b: Seq<char>)
    requires
        key_lt(a, b),
    ensures
        !key_lt(b, a),
{
    if key_lt(b, a) {
        lemma_key_lt_transitive(a, b, a);
        lemma_key_lt_irreflexive(a);
    }
}

/// `String`'s `<` on character vectors.
pub fn key_less(a: &Vec<char>, b: &Vec<char>) -> (r: bool)
    ensures
        r == key_lt(a@, b@),
{
    let mut i: usize = 0;
    assert(a@.skip(0) =~= a@);
    assert(b@.skip(0) =~= b@);
    while i < a.len() && i < b.len() && a[i] == b[i]
        invariant
            i <= a.len(),
            i <= b.len(),
            key_lt(a@, b@) == key_lt(a@.skip(i as int), b@.skip(i as int)),
        decreases a.len() - i,
    {
        assert(a@.skip(i as int).drop_first() =~= a@.skip(i + 1));
        assert(b@.skip(i as int).drop_first() =~= b@.skip(i + 1));
        i = i + 1;
    }
    if i == a.len() {
        i < b.len()
    } else if i == b.len() {
        false
    } else {
        a[i] < b[i]
    }
}

/// A sequence of distinct items drawn from a pool is no longer than the pool.
pub proof fn lemma_distinct_within<A>(items: Seq<A>, pool: Seq<A>)
    requires
        items.no_duplicates(),
        forall|i: int| 0 <= i < items.len() ==> pool.contains(#[trigger] items[i]),
    ensures
        items.len() <= pool.len(),
{
    items.unique_seq_to_set();
    pool.lemma_cardinality_of_set();
    assert(items.to_set().subset_of(pool.to_set())) by {
        assert forall|x: A| items.to_set().contains(x) implies pool.to_set().contains(x) by {
            let i = choose|i: int| 0 <= i < items.len() && items[i] == x;
            assert(pool.contains(items[i]));
        }
    }
    vstd::seq_lib::seq_to_set_is_finite(pool);
    lemma_len_subset(items.to_set(), pool.to_set());
}

pub proof fn lemma_push_to_set<A>(s: Seq<A>, x: A)
    ensures
        s.push(x).to_set() == s.to_set().insert(x),
{
    assert forall|y: A| s.push(x).to_set().contains(y) <==> s.to_set().insert(x).contains(y) by {
        if s.push(x).contains(y) && y != x {
            let j = choose|j: int| 0 <= j < s.push(x).len() && s.push(x)[j] == y;
            assert(s[j] == y);
        }
        if s.contains(y) {
            let j = choose|j: int| 0 <= j < s.len() && s[j] == y;
            assert(s.push(x)[j] == y);
        }
        if y == x {
            assert(s.push(x)[s.len() as int] == x);
        }
    }
    assert(s.push(x).to_set() =~= s.to_set().insert(x));
}

/// The views of a list of strings.
pub open spec fn views(v: Seq<String>) -> Seq<Seq<char>> {
    v.map_values(|s: String| s@)
}

/// Whether a string's view occurs in a list of strings.
pub fn holds(v: &Vec<String>, key: &String) -> (r: bool)
    ensures
        r == views(v@).contains(key@),
{
    let mut i: usize = 0;
    while i < v.len()
        invariant
            i <= v.len(),
            forall|j: int| 0 <= j < i ==> v@[j]@ != key@,
        decreases v.len() - i,
    {
        if v[i] == *key {
            assert(views(v@)[i as int] == key@);
            return true;
        }
        i = i + 1;
    }
    assert forall|j: int| 0 <= j < views(v@).len() implies views(v@)[j] != key@ by {
        assert(views(v@)[j] == v@[j]@);
    }
    false
}

/// A set of issue keys, such as the collapsed nodes or the favorites.
pub struct KeySet {
    keys: Vec<String>,
}

impl KeySet {
    #[verifier::type_invariant]
    spec fn distinct(self) -> bool {
        views(self.keys@).no_duplicates()
    }

    /// The keys in the set.
    pub closed spec fn view(&self) -> Set<Seq<char>> {
        views(self.keys@).to_set()
    }

    /// The keys in the order they were added.
    pub closed spec fn listed(&self) -> Seq<Seq<char>> {
        views(self.keys@)
    }

    /// An empty set.
    pub fn new() -> (s: KeySet)
        ensures
            s@ == Set::<Seq<char>>::empty(),
    {
        let s = KeySet { keys: Vec::new() };
        assert(views(s.keys@) =~= Seq::<Seq<char>>::empty());
        s
    }

    /// Whether a key is in the set.
    pub fn contains(&self, key: &String) -> (r: bool)
        ensures
            r == self@.contains(key@),
    {
        holds(&self.keys, key)
    }

    /// Whether a key given as a slice is in the set.
    pub fn contains_str(&self, key: &str) -> (r: bool)
        ensures
            r == self@.contains(key@),
    {
        let k = key.to_owned();
        self.contains(&k)
    }

    /// Adds a key; tells whether it was new, as `HashSet::insert` does.
    pub fn insert(&mut self, key: String) -> (r: bool)
        ensures
            r == !old(self)@.contains(key@),
            final(self)@ == old(self)@.insert(key@),
    {
        proof {
            use_type_invariant(&*self);
        }
        if holds(&self.keys, &key) {
            assert(self@ =~= self@.insert(key@));
            return false;
        }
        let ghost before = views(self.keys@);
        let ghost k = key@;
        let mut v: Vec<String> = Vec::new();
        std::mem::swap(&mut v, &mut self.keys);
        v.push(key);
        assert(views(v@) =~= before.push(k));
        proof {
            lemma_push_to_set(before, k);
        }
        self.keys = v;
        true
    }

    /// Removes a key; tells whether it was there, as `HashSet::remove` does.
    pub fn remove(&mut self, key: &String) -> (r: bool)
        ensures
            r == old(self)@.contains(key@),
            final(self)@ == old(self)@.remove(key@),
    {
        proof {
            use_type_invariant(&*self);
        }
        let ghost before = views(self.keys@);
        let mut rest: Vec<String> = Vec::new();
        let mut found = false;
        let mut i: usize = 0;
        while i < self.keys.len()
            invariant
                i <= self.keys.len(),
                views(self.keys@) == before,
                before.no_duplicates(),
                views(rest@).no_duplicates(),
                forall|x: Seq<char>| #[trigger] views(rest@).contains(x) <==> (before.take(i as int).contains(x)
                    && x != key@),
                found == before.take(i as int).contains(key@),
            decreases self.keys.len() - i,
        {
            let ghost b = before[i as int];
            assert(before.take(i + 1) =~= before.take(i as int).push(b));
            assert(!before.take(i as int).contains(b)) by {
                if before.take(i as int).contains(b) {
                    let j = choose|j: int| 0 <= j < i && before.take(i as int)[j] == b;
                    assert(before[j] == before[i as int]);
                }
            }
            assert(before.take(i + 1).contains(key@) == (before.take(i as int).contains(key@)
                || b == key@)) by {
                if before.take(i + 1).contains(key@) && b != key@ {
                    let j = choose|j: int| 0 <= j < i + 1 && #[trigger] before.take(i + 1)[j] == key@;
                    assert(before.take(i as int)[j] == key@);
                }
                if b == key@ {
                    assert(before.take(i + 1)[i as int] == key@);
                }
            }
            assert forall|x: Seq<char>| #[trigger] before.take(i + 1).contains(x) <==> (before.take(
                i as int,
            ).contains(x) || x == b) by {
                if before.take(i + 1).contains(x) && x != b {
                    let j = choose|j: int| 0 <= j < i + 1 && #[trigger] before.take(i + 1)[j] == x;
                    assert(before.take(i as int)[j] == x);
                }
                if before.take(i as int).contains(x) {
                    let j = choose|j: int| 0 <= j < i && #[trigger] before.take(i as int)[j] == x;
                    assert(before.take(i + 1)[j] == x);
                }
                if x == b {
                    assert(before.take(i + 1)[i as int] == x);
                }
            }
            assert(views(self.keys@)[i as int] == self.keys@[i as int]@);
            if self.keys[i] == *key {
                found = true;
            } else {
                let ghost old_rest = views(rest@);
                assert(!old_rest.contains(b));
                rest.push(self.keys[i].clone());
                assert(views(rest@) =~= old_rest.push(b));
                proof {
                    lemma_push_to_set(old_rest, b);
                    assert forall|x: Seq<char>| #[trigger] views(rest@).contains(x) <==> (old_rest.contains(x) || x == b) by {
                        assert(views(rest@).to_set().contains(x) == views(rest@).contains(x));
                        assert(old_rest.to_set().contains(x) == old_rest.contains(x));
                    }
                }
                assert(views(rest@).no_duplicates()) by {
                    assert forall|p: int, q: int| 0 <= p < views(rest@).len() && 0 <= q < views(rest@).len() && p != q implies views(rest@)[p] != views(rest@)[q] by {
                        if p < old_rest.len() && q < old_rest.len() {
                        } else if p == old_rest.len() {
                            assert(old_rest.contains(views(rest@)[q]) || q == p);
                        } else {
                            assert(old_rest.contains(views(rest@)[p]));
                        }
                    }
                }
            }
            i = i + 1;
        }
        assert(before.take(i as int) =~= before);
        self.keys = rest;
        assert(self@ =~= old(self)@.remove(key@));
        found
    }

    /// Adds a key that is absent and removes one that is present.
    pub fn toggle(&mut self, key: String)
        ensures
            old(self)@.contains(key@) ==> final(self)@ == old(self)@.remove(key@),
            !old(self)@.contains(key@) ==> final(self)@ == old(self)@.insert(key@),
    {
        let k = key.clone();
        if !self.insert(key) {
            self.remove(&k);
        }
    }

    /// Empties the set.
    pub fn clear(&mut self)
        ensures
            final(self)@ == Set::<Seq<char>>::empty(),
    {
        self.keys = Vec::new();
        assert(views(self.keys@) =~= Seq::<Seq<char>>::empty());
    }

    /// The keys, in the order they were added.
    pub fn to_vec(&self) -> (r: Vec<String>)
        ensures
            views(r@) == self.listed(),
            views(r@).no_duplicates(),
            views(r@).to_set() == self@,
    {
        proof {
            use_type_invariant(self);
        }
        let mut r: Vec<String> = Vec::new();
        let mut i: usize = 0;
        while i < self.keys.len()
            invariant
                i <= self.keys.len(),
                views(r@) == views(self.keys@).take(i as int),
            decreases self.keys.len() - i,
        {
            let ghost old_r = views(r@);
            r.push(self.keys[i].clone());
            assert(views(r@) =~= old_r.push(self.keys@[i as int]@));
            i = i + 1;
            assert(views(r@) =~= views(self.keys@).take(i as int));
        }
        assert(views(self.keys@).take(i as int) =~= views(self.keys@));
        r
    }
}

/// Toggling a key twice leaves the set as it was.
pub proof fn law_toggle_twice(s: Set<Seq<char>>, key: Seq<char>)
    ensures
        s.contains(key) ==> s.remove(key).insert(key) == s,
        !s.contains(key) ==> s.insert(key).remove(key) == s,
{
    assert(s.contains(key) ==> s.remove(key).insert(key) =~= s);
    assert(!s.contains(key) ==> s.insert(key).remove(key) =~= s);
}

} // verus!
