//! Ordered string-keyed maps and sets.
//!
//! `StrMap` keeps its entries sorted by key in the order of `String`'s `Ord`
//! (lexicographic over characters), so iterating it by index visits keys in
//! ascending order, as a `BTreeMap<String, _>` does. Its view is a `Map` from
//! key characters to value views. `StrSet` is the key set of a `StrMap<()>`.

use vstd::prelude::*;

use crate::text::chars_of;

verus! {

// ---------------------------------------------------------------------------
// Lexicographic order on character sequences
// ---------------------------------------------------------------------------

/// Strict lexicographic order on character sequences (the order of `String`).
pub open spec fn lex_lt(a: Seq<char>, b: Seq<char>) -> bool
    decreases a.len(),
{
    if a.len() == 0 {
        b.len() > 0
    } else if b.len() == 0 {
        false
    } else if a[0] != b[0] {
        a[0] < b[0]
    } else {
        lex_lt(a.drop_first(), b.drop_first())
    }
}

/// No sequence precedes itself.
pub proof fn lemma_lex_irreflexive(a: Seq<char>)
    ensures
        !lex_lt(a, a),
    decreases a.len(),
{
    if a.len() > 0 {
        lemma_lex_irreflexive(a.drop_first());
    }
}

/// The order is transitive.
pub proof fn lemma_lex_transitive(a: Seq<char>, b: Seq<char>, c: Seq<char>)
    requires
        lex_lt(a, b),
        lex_lt(b, c),
    ensures
        lex_lt(a, c),
    decreases a.len(),
{
    if a.len() > 0 && b.len() > 0 && c.len() > 0 && a[0] == b[0] && b[0] == c[0] {
        lemma_lex_transitive(a.drop_first(), b.drop_first(), c.drop_first());
    }
}

/// Any two distinct sequences are ordered one way or the other.
pub proof fn lemma_lex_total(a: Seq<char>, b: Seq<char>)
    requires
        a != b,
    ensures
        lex_lt(a, b) || lex_lt(b, a),
    decreases a.len(),
{
    if a.len() > 0 && b.len() > 0 && a[0] == b[0] {
        if a.drop_first() == b.drop_first() {
            assert(a == seq![a[0]] + a.drop_first());
            assert(b == seq![b[0]] + b.drop_first());
        }
        lemma_lex_total(a.drop_first(), b.drop_first());
    } else if a.len() == 0 && b.len() == 0 {
        assert(a == b);
    }
}

/// Three-way comparison of two character sequences: negative, zero or
/// positive as `a` sorts before, equal to, or after `b`.
pub fn compare_chars(a: &[char], b: &[char]) -> (r: i8)
    ensures
        (r < 0) == lex_lt(a@, b@),
        (r == 0) == (a@ == b@),
        (r > 0) == lex_lt(b@, a@),
{
    let mut i: usize = 0;
    assert(a@.skip(0) == a@);
    assert(b@.skip(0) == b@);
    while i < a.len() && i < b.len() && a[i] == b[i]
        invariant
            i <= a@.len(),
            i <= b@.len(),
            lex_lt(a@, b@) == lex_lt(a@.skip(i as int), b@.skip(i as int)),
            lex_lt(b@, a@) == lex_lt(b@.skip(i as int), a@.skip(i as int)),
            (a@ == b@) == (a@.skip(i as int) == b@.skip(i as int)),
        decreases a@.len() - i,
    {
        let ghost sa = a@.skip(i as int);
        let ghost sb = b@.skip(i as int);
        assert(sa.drop_first() == a@.skip(i + 1));
        assert(sb.drop_first() == b@.skip(i + 1));
        assert(sa == seq![sa[0]] + sa.drop_first());
        assert(sb == seq![sb[0]] + sb.drop_first());
        i = i + 1;
    }
    let ghost sa = a@.skip(i as int);
    let ghost sb = b@.skip(i as int);
    proof {
        lemma_lex_irreflexive(sa);
    }
    if i < a.len() && i < b.len() {
        assert(sa[0] != sb[0]);
        if a[i] < b[i] {
            -1
        } else {
            1
        }
    } else if i < b.len() {
        assert(sa.len() == 0);
        -1
    } else if i < a.len() {
        assert(sb.len() == 0);
        1
    } else {
        assert(sa.len() == 0 && sb.len() == 0);
        assert(sa == sb);
        0
    }
}

// ---------------------------------------------------------------------------
// Sorted entry sequences and their map view
// ---------------------------------------------------------------------------

/// Keys of `s` are strictly increasing.
pub open spec fn keys_sorted<V>(s: Seq<(String, V)>) -> bool {
    forall|i: int, j: int| 0 <= i < j < s.len() ==> lex_lt(#[trigger] s[i].0@, #[trigger] s[j].0@)
}

/// Some entry of `s` has key `k`.
pub open spec fn has_key<V>(s: Seq<(String, V)>, k: Seq<char>) -> bool {
    exists|i: int| 0 <= i < s.len() && #[trigger] s[i].0@ == k
}

/// An index of an entry of `s` with key `k`.
pub open spec fn key_index<V>(s: Seq<(String, V)>, k: Seq<char>) -> int {
    choose|i: int| 0 <= i < s.len() && #[trigger] s[i].0@ == k
}

/// The map from keys to value views described by `s`.
pub open spec fn map_of<V: View>(s: Seq<(String, V)>) -> Map<Seq<char>, V::V> {
    Map::new(|k: Seq<char>| has_key(s, k), |k: Seq<char>| s[key_index(s, k)].1@)
}

/// In a sorted sequence each key sits at exactly one index.
pub proof fn lemma_sorted_unique<V: View>(s: Seq<(String, V)>, i: int)
    requires
        keys_sorted(s),
        0 <= i < s.len(),
    ensures
        has_key(s, s[i].0@),
        key_index(s, s[i].0@) == i,
        map_of(s).contains_key(s[i].0@),
        map_of(s)[s[i].0@] == s[i].1@,
{
    assert(has_key(s, s[i].0@));
    let j = key_index(s, s[i].0@);
    if j != i {
        lemma_lex_irreflexive(s[i].0@);
        if j < i {
            assert(lex_lt(s[j].0@, s[i].0@));
        } else {
            assert(lex_lt(s[i].0@, s[j].0@));
        }
    }
}

/// Inserting a new key at its sorted position keeps the keys sorted and
/// inserts into the map view.
proof fn lemma_insert_at<V: View>(s: Seq<(String, V)>, p: int, k: String, v: V)
    requires
        keys_sorted(s),
        0 <= p <= s.len(),
        forall|i: int| 0 <= i < p ==> lex_lt(#[trigger] s[i].0@, k@),
        forall|i: int| p <= i < s.len() ==> lex_lt(k@, #[trigger] s[i].0@),
    ensures
        keys_sorted(s.insert(p, (k, v))),
        map_of(s.insert(p, (k, v))) == map_of(s).insert(k@, v@),
{
    let t = s.insert(p, (k, v));
    assert forall|i: int, j: int| 0 <= i < j < t.len() implies lex_lt(
        #[trigger] t[i].0@,
        #[trigger] t[j].0@,
    ) by {
        if j < p {
            assert(t[i] == s[i] && t[j] == s[j]);
        } else if j == p {
            assert(t[i] == s[i]);
        } else if i == p {
            assert(t[j] == s[j - 1]);
        } else if i < p {
            assert(t[i] == s[i] && t[j] == s[j - 1]);
        } else {
            assert(t[i] == s[i - 1] && t[j] == s[j - 1]);
        }
    }
    assert(t[p] == (k, v));
    lemma_sorted_unique(t, p);
    assert forall|key: Seq<char>| #[trigger] has_key(t, key) == (key == k@ || has_key(s, key)) by {
        if has_key(s, key) {
            let i = key_index(s, key);
            if i < p {
                assert(t[i] == s[i]);
            } else {
                assert(t[i + 1] == s[i]);
            }
        }
        if has_key(t, key) && key != k@ {
            let i = key_index(t, key);
            if i < p {
                assert(t[i] == s[i]);
            } else {
                assert(i != p);
                assert(t[i] == s[i - 1]);
            }
        }
    }
    assert forall|key: Seq<char>| has_key(s, key) && key != k@ implies map_of(t)[key]
        == map_of(s)[key] by {
        let i = key_index(s, key);
        lemma_sorted_unique(s, i);
        if i < p {
            assert(t[i] == s[i]);
            lemma_sorted_unique(t, i);
        } else {
            assert(t[i + 1] == s[i]);
            lemma_sorted_unique(t, i + 1);
        }
    }
    assert(map_of(t) =~= map_of(s).insert(k@, v@));
}

/// Replacing the value at an index keeps the keys and updates the map view.
proof fn lemma_replace_at<V: View>(s: Seq<(String, V)>, p: int, k: String, v: V)
    requires
        keys_sorted(s),
        0 <= p < s.len(),
        s[p].0@ == k@,
    ensures
        keys_sorted(s.update(p, (k, v))),
        map_of(s.update(p, (k, v))) == map_of(s).insert(k@, v@),
{
    let t = s.update(p, (k, v));
    assert forall|i: int, j: int| 0 <= i < j < t.len() implies lex_lt(
        #[trigger] t[i].0@,
        #[trigger] t[j].0@,
    ) by {
        assert(t[i].0@ == s[i].0@ && t[j].0@ == s[j].0@);
    }
    lemma_sorted_unique(t, p);
    assert forall|key: Seq<char>| #[trigger] has_key(t, key) == has_key(s, key) by {
        if has_key(s, key) {
            let i = key_index(s, key);
            assert(t[i].0@ == s[i].0@);
        }
        if has_key(t, key) {
            let i = key_index(t, key);
            assert(t[i].0@ == s[i].0@);
        }
    }
    assert forall|key: Seq<char>| has_key(s, key) && key != k@ implies map_of(t)[key]
        == map_of(s)[key] by {
        let i = key_index(s, key);
        lemma_sorted_unique(s, i);
        assert(t[i] == s[i]);
        lemma_sorted_unique(t, i);
    }
    lemma_sorted_unique(s, p);
    assert(map_of(t) =~= map_of(s).insert(k@, v@));
}

/// Removing the entry at an index keeps the keys sorted and removes its key.
proof fn lemma_remove_at<V: View>(s: Seq<(String, V)>, p: int)
    requires
        keys_sorted(s),
        0 <= p < s.len(),
    ensures
        keys_sorted(s.remove(p)),
        map_of(s.remove(p)) == map_of(s).remove(s[p].0@),
{
    let t = s.remove(p);
    let k = s[p].0@;
    lemma_sorted_unique(s, p);
    assert forall|i: int, j: int| 0 <= i < j < t.len() implies lex_lt(
        #[trigger] t[i].0@,
        #[trigger] t[j].0@,
    ) by {
        if j < p {
            assert(t[i] == s[i] && t[j] == s[j]);
        } else if i < p {
            assert(t[i] == s[i] && t[j] == s[j + 1]);
        } else {
            assert(t[i] == s[i + 1] && t[j] == s[j + 1]);
        }
    }
    assert forall|key: Seq<char>| #[trigger] has_key(t, key) == (key != k && has_key(s, key)) by {
        if has_key(s, key) && key != k {
            let i = key_index(s, key);
            if i < p {
                assert(t[i] == s[i]);
            } else {
                assert(i != p);
                assert(t[i - 1] == s[i]);
            }
        }
        if has_key(t, key) {
            let i = key_index(t, key);
            if i < p {
                assert(t[i] == s[i]);
                lemma_sorted_unique(s, i);
            } else {
                assert(t[i] == s[i + 1]);
                lemma_sorted_unique(s, i + 1);
            }
        }
    }
    assert forall|key: Seq<char>| has_key(t, key) implies map_of(t)[key] == map_of(s)[key] by {
        let i = key_index(t, key);
        lemma_sorted_unique(t, i);
        if i < p {
            assert(t[i] == s[i]);
            lemma_sorted_unique(s, i);
        } else {
            assert(t[i] == s[i + 1]);
            lemma_sorted_unique(s, i + 1);
        }
    }
    assert(map_of(t) =~= map_of(s).remove(k));
}

// ---------------------------------------------------------------------------
// StrMap
// ---------------------------------------------------------------------------

/// A map from strings to values, kept sorted by key.
#[derive(Debug)]
pub struct StrMap<V> {
    entries: Vec<(String, V)>,
}

impl<V> StrMap<V> {
    #[verifier::type_invariant]
    spec fn sorted(&self) -> bool {
        keys_sorted(self.entries@)
    }
}

impl<V: View> StrMap<V> {
    /// Number of entries.
    pub closed spec fn spec_len(&self) -> nat {
        self.entries@.len()
    }

    /// Key of the `i`-th entry in ascending key order.
    pub closed spec fn spec_key(&self, i: int) -> Seq<char> {
        self.entries@[i].0@
    }

    /// View of the value of the `i`-th entry in ascending key order.
    pub closed spec fn spec_value(&self, i: int) -> V::V {
        self.entries@[i].1@
    }

    /// An empty map.
    pub fn new() -> (m: Self)
        ensures
            m@ == Map::<Seq<char>, V::V>::empty(),
            m.spec_len() == 0,
    {
        let m = StrMap { entries: Vec::new() };
        assert(map_of(m.entries@) =~= Map::<Seq<char>, V::V>::empty());
        m
    }

    /// Number of entries, and the facts that relate entry positions to the view.
    pub fn len(&self) -> (r: usize)
        ensures
            r == self.spec_len(),
            r == self@.dom().len(),
            forall|k: Seq<char>| #[trigger]
                self@.contains_key(k) <==> exists|i: int| 0 <= i < r && self.spec_key(i) == k,
            forall|i: int| 0 <= i < r ==> #[trigger] self@.contains_key(self.spec_key(i)),
            forall|i: int| 0 <= i < r ==> self@[self.spec_key(i)] == #[trigger] self.spec_value(i),
            forall|i: int, j: int|
                0 <= i < j < r ==> lex_lt(#[trigger] self.spec_key(i), #[trigger] self.spec_key(j)),
    {
        proof {
            use_type_invariant(self);
            let n = self.entries@.len();
            assert forall|k: Seq<char>| #[trigger]
                self@.contains_key(k) <==> exists|i: int| 0 <= i < n && self.spec_key(i) == k by {
                if has_key(self.entries@, k) {
                    let i = key_index(self.entries@, k);
                    assert(self.spec_key(i) == k);
                }
                if exists|i: int| 0 <= i < n && self.spec_key(i) == k {
                    let i = choose|i: int| 0 <= i < n && self.spec_key(i) == k;
                    assert(self.entries@[i].0@ == k);
                }
            }
            assert forall|i: int| 0 <= i < n implies #[trigger] self@.contains_key(self.spec_key(i))
                by {
                lemma_sorted_unique(self.entries@, i);
            }
            assert forall|i: int| 0 <= i < n implies self@[self.spec_key(i)]
                == #[trigger] self.spec_value(i) by {
                lemma_sorted_unique(self.entries@, i);
            }
            let keys = self.entries@.map_values(|e: (String, V)| e.0@);
            assert forall|i: int, j: int| 0 <= i < keys.len() && 0 <= j < keys.len() && i != j
                implies keys[i] != keys[j] by {
                lemma_lex_irreflexive(keys[i]);
                if i < j {
                    assert(lex_lt(self.entries@[i].0@, self.entries@[j].0@));
                } else {
                    assert(lex_lt(self.entries@[j].0@, self.entries@[i].0@));
                }
            }
            keys.unique_seq_to_set();
            assert forall|k: Seq<char>| #[trigger] self@.dom().contains(k) == keys.to_set().contains(k) by {
                if has_key(self.entries@, k) {
                    let i = key_index(self.entries@, k);
                    assert(keys[i] == k);
                }
                if keys.contains(k) {
                    let i = choose|i: int| 0 <= i < keys.len() && keys[i] == k;
                    assert(self.entries@[i].0@ == k);
                }
            }
            assert(self@.dom() =~= keys.to_set());
        }
        self.entries.len()
    }

    /// The key of the `i`-th entry in ascending key order.
    pub fn key_at(&self, i: usize) -> (r: &String)
        requires
            i < self.spec_len(),
        ensures
            r@ == self.spec_key(i as int),
            self@.contains_key(r@),
            self@[r@] == self.spec_value(i as int),
    {
        proof {
            use_type_invariant(self);
            lemma_sorted_unique(self.entries@, i as int);
        }
        &self.entries[i].0
    }

    /// The value of the `i`-th entry in ascending key order.
    pub fn value_at(&self, i: usize) -> (r: &V)
        requires
            i < self.spec_len(),
        ensures
            r@ == self.spec_value(i as int),
            self@.contains_key(self.spec_key(i as int)),
            self@[self.spec_key(i as int)] == r@,
    {
        proof {
            use_type_invariant(self);
            lemma_sorted_unique(self.entries@, i as int);
        }
        &self.entries[i].1
    }

    /// Position of `k` among the sorted keys, and whether it is present there.
    fn find(&self, k: &[char]) -> (r: (usize, bool))
        ensures
            r.0 <= self.entries@.len(),
            forall|i: int| 0 <= i < r.0 ==> lex_lt(#[trigger] self.entries@[i].0@, k@),
            r.1 == (r.0 < self.entries@.len() && self.entries@[r.0 as int].0@ == k@),
            forall|i: int| r.0 < i < self.entries@.len() ==> lex_lt(k@, #[trigger] self.entries@[i].0@),
            !r.1 ==> forall|i: int|
                r.0 <= i < self.entries@.len() ==> lex_lt(k@, #[trigger] self.entries@[i].0@),
            !r.1 ==> !has_key(self.entries@, k@),
    {
        proof {
            use_type_invariant(self);
        }
        let n = self.entries.len();
        let mut p: usize = 0;
        let mut stop = false;
        let mut found = false;
        while p < n && !stop
            invariant
                n == self.entries@.len(),
                keys_sorted(self.entries@),
                p <= n,
                forall|i: int| 0 <= i < p ==> lex_lt(#[trigger] self.entries@[i].0@, k@),
                stop ==> p < n && !lex_lt(self.entries@[p as int].0@, k@),
                stop ==> found == (self.entries@[p as int].0@ == k@),
                !stop ==> !found,
            decreases n - p + (if stop { 0int } else { 1int }),
        {
            let key = chars_of(self.entries[p].0.as_str());
            let c = compare_chars(&key, k);
            if c < 0 {
                p = p + 1;
            } else {
                stop = true;
                found = c == 0;
            }
        }
        assert(found == (p < n && self.entries@[p as int].0@ == k@));
        proof {
            let s = self.entries@;
            if p < n {
                assert(!lex_lt(s[p as int].0@, k@));
                if !found {
                    lemma_lex_total(s[p as int].0@, k@);
                }
                assert forall|i: int| p < i < n implies lex_lt(k@, #[trigger] s[i].0@) by {
                    assert(lex_lt(s[p as int].0@, s[i].0@));
                    if found {
                        assert(s[p as int].0@ == k@);
                    } else {
                        lemma_lex_transitive(k@, s[p as int].0@, s[i].0@);
                    }
                }
            }
            if !found && has_key(s, k@) {
                let j = key_index(s, k@);
                lemma_lex_irreflexive(k@);
                if j < p {
                    assert(lex_lt(s[j].0@, k@));
                } else {
                    assert(lex_lt(k@, s[j].0@));
                }
            }
        }
        (p, found)
    }

    /// The value stored under `k`, if any.
    pub fn get(&self, k: &str) -> (r: Option<&V>)
        ensures
            r is Some == self@.contains_key(k@),
            r matches Some(v) ==> v@ == self@[k@],
    {
        proof {
            use_type_invariant(self);
        }
        let kc = chars_of(k);
        let (p, found) = self.find(&kc);
        if found {
            proof {
                lemma_sorted_unique(self.entries@, p as int);
            }
            Some(&self.entries[p].1)
        } else {
            None
        }
    }

    /// Whether `k` is a key.
    pub fn contains_key(&self, k: &str) -> (r: bool)
        ensures
            r == self@.contains_key(k@),
    {
        self.get(k).is_some()
    }

    /// Stores `v` under `k`, replacing any previous value.
    pub fn insert(&mut self, k: String, v: V)
        ensures
            final(self)@ == old(self)@.insert(k@, v@),
    {
        proof {
            use_type_invariant(&*self);
        }
        let kc = chars_of(k.as_str());
        let (p, found) = self.find(&kc);
        let mut entries: Vec<(String, V)> = Vec::new();
        std::mem::swap(&mut entries, &mut self.entries);
        let ghost s = entries@;
        if found {
            proof {
                lemma_replace_at(s, p as int, k, v);
            }
            entries.set(p, (k, v));
        } else {
            proof {
                lemma_insert_at(s, p as int, k, v);
            }
            entries.insert(p, (k, v));
        }
        self.entries = entries;
    }

    /// Removes the entry for `k`, returning its value if it was present.
    pub fn remove(&mut self, k: &str) -> (r: Option<V>)
        ensures
            final(self)@ == old(self)@.remove(k@),
            r is Some == old(self)@.contains_key(k@),
            r matches Some(v) ==> v@ == old(self)@[k@],
    {
        proof {
            use_type_invariant(&*self);
        }
        let kc = chars_of(k);
        let (p, found) = self.find(&kc);
        if !found {
            assert(old(self)@.remove(k@) =~= old(self)@);
            return None;
        }
        let mut entries: Vec<(String, V)> = Vec::new();
        std::mem::swap(&mut entries, &mut self.entries);
        let ghost s = entries@;
        proof {
            lemma_remove_at(s, p as int);
            lemma_sorted_unique(s, p as int);
        }
        let (_, v) = entries.remove(p);
        self.entries = entries;
        Some(v)
    }
}

impl<V: Clone + View> Clone for StrMap<V> {
    /// A copy with the same keys in the same order, each value cloned.
    fn clone(&self) -> (r: Self)
        ensures
            r.spec_len() == self.spec_len(),
            forall|i: int| 0 <= i < self.spec_len() ==> #[trigger] r.spec_key(i) == self.spec_key(i),
    {
        proof {
            use_type_invariant(self);
        }
        let mut entries: Vec<(String, V)> = Vec::new();
        for i in 0..self.entries.len()
            invariant
                entries@.len() == i,
                forall|j: int| 0 <= j < i ==> #[trigger] entries@[j].0@ == self.entries@[j].0@,
        {
            entries.push((self.entries[i].0.clone(), self.entries[i].1.clone()));
        }
        assert forall|a: int, b: int| 0 <= a < b < entries@.len() implies lex_lt(
            #[trigger] entries@[a].0@,
            #[trigger] entries@[b].0@,
        ) by {
            assert(entries@[a].0@ == self.entries@[a].0@);
            assert(entries@[b].0@ == self.entries@[b].0@);
        }
        StrMap { entries }
    }
}

impl<V: View> View for StrMap<V> {
    type V = Map<Seq<char>, V::V>;

    closed spec fn view(&self) -> Map<Seq<char>, V::V> {
        map_of(self.entries@)
    }
}

// ---------------------------------------------------------------------------
// StrSet
// ---------------------------------------------------------------------------

/// A set of strings, kept in ascending order.
#[derive(Debug, Clone)]
pub struct StrSet {
    members: StrMap<()>,
}

impl StrSet {
    /// Number of members.
    pub closed spec fn spec_len(&self) -> nat {
        self.members.spec_len()
    }

    /// The `i`-th member in ascending order.
    pub closed spec fn spec_item(&self, i: int) -> Seq<char> {
        self.members.spec_key(i)
    }

    /// An empty set.
    pub fn new() -> (s: Self)
        ensures
            s@ == Set::<Seq<char>>::empty(),
            s.spec_len() == 0,
    {
        let s = StrSet { members: StrMap::new() };
        assert(s@ =~= Set::<Seq<char>>::empty());
        s
    }

    /// Number of members, and the facts that relate positions to the view.
    pub fn len(&self) -> (r: usize)
        ensures
            r == self.spec_len(),
            r == self@.len(),
            forall|k: Seq<char>| #[trigger]
                self@.contains(k) <==> exists|i: int| 0 <= i < r && self.spec_item(i) == k,
            forall|i: int| 0 <= i < r ==> #[trigger] self@.contains(self.spec_item(i)),
            forall|i: int, j: int|
                0 <= i < j < r ==> lex_lt(#[trigger] self.spec_item(i), #[trigger] self.spec_item(j)),
    {
        let r = self.members.len();
        assert forall|k: Seq<char>| #[trigger] self@.contains(k) <==> exists|i: int|
            0 <= i < r && self.spec_item(i) == k by {
            assert(self@.contains(k) == self.members@.contains_key(k));
            if self.members@.contains_key(k) {
                let i = choose|i: int| 0 <= i < r && self.members.spec_key(i) == k;
                assert(self.spec_item(i) == k);
            }
            if exists|i: int| 0 <= i < r && self.spec_item(i) == k {
                let i = choose|i: int| 0 <= i < r && self.spec_item(i) == k;
                assert(self.members.spec_key(i) == k);
            }
        }
        r
    }

    /// The `i`-th member in ascending order.
    pub fn item_at(&self, i: usize) -> (r: &String)
        requires
            i < self.spec_len(),
        ensures
            r@ == self.spec_item(i as int),
            self@.contains(r@),
    {
        self.members.key_at(i)
    }

    /// Whether `k` is a member.
    pub fn contains(&self, k: &str) -> (r: bool)
        ensures
            r == self@.contains(k@),
    {
        self.members.contains_key(k)
    }

    /// Adds `k`.
    pub fn insert(&mut self, k: String)
        ensures
            final(self)@ == old(self)@.insert(k@),
    {
        self.members.insert(k, ());
        assert(self@ =~= old(self)@.insert(k@));
    }

    /// Removes `k`, returning whether it was a member.
    pub fn remove(&mut self, k: &str) -> (r: bool)
        ensures
            final(self)@ == old(self)@.remove(k@),
            r == old(self)@.contains(k@),
    {
        let r = self.members.remove(k);
        assert(self@ =~= old(self)@.remove(k@));
        r.is_some()
    }
}

impl View for StrSet {
    type V = Set<Seq<char>>;

    closed spec fn view(&self) -> Set<Seq<char>> {
        self.members@.dom()
    }
}

// ---------------------------------------------------------------------------
// Copying and merging
// ---------------------------------------------------------------------------

/// Values that can be copied with an equal view.
pub trait Duplicate: View + Sized {
    /// A copy of `self`.
    fn duplicate(&self) -> (r: Self)
        ensures
            r@ == self@,
    ;
}

impl Duplicate for bool {
    fn duplicate(&self) -> (r: bool) {
        *self
    }
}

impl<V: Duplicate> StrMap<V> {
    /// Inserts every entry of `other`, replacing values of keys already present
    /// (later wins per key).
    pub fn extend_from(&mut self, other: &StrMap<V>)
        ensures
            final(self)@ == old(self)@.union_prefer_right(other@),
    {
        let n = other.len();
        let ghost start = self@;
        for i in 0..n
            invariant
                n == other.spec_len(),
                start == old(self)@,
                forall|k: Seq<char>| #[trigger] other@.contains_key(k) <==> exists|j: int|
                    0 <= j < n && other.spec_key(j) == k,
                forall|j: int| 0 <= j < n ==> #[trigger] other@.contains_key(other.spec_key(j)),
                forall|j: int| 0 <= j < n ==> other@[other.spec_key(j)] == #[trigger] other.spec_value(j),
                forall|a: int, b: int|
                    0 <= a < b < n ==> lex_lt(#[trigger] other.spec_key(a), #[trigger] other.spec_key(b)),
                forall|k: Seq<char>| #[trigger] self@.contains_key(k) <==> (start.contains_key(k) || exists|j: int|
                    0 <= j < i && other.spec_key(j) == k),
                forall|j: int| 0 <= j < i ==> self@[#[trigger] other.spec_key(j)] == other.spec_value(j),
                forall|k: Seq<char>|
                    start.contains_key(k) && !(exists|j: int| 0 <= j < i && other.spec_key(j) == k)
                        ==> #[trigger] self@[k] == start[k],
        {
            let key = other.key_at(i);
            let value = other.value_at(i);
            let ghost before = self@;
            self.insert(key.clone(), value.duplicate());
            proof {
                assert forall|j: int| 0 <= j < i implies other.spec_key(j) != other.spec_key(i as int) by {
                    lemma_lex_irreflexive(other.spec_key(j));
                    assert(lex_lt(other.spec_key(j), other.spec_key(i as int)));
                }
                assert forall|k: Seq<char>| #[trigger] self@.contains_key(k) <==> (start.contains_key(k)
                    || exists|j: int| 0 <= j < i + 1 && other.spec_key(j) == k) by {
                    if k == other.spec_key(i as int) {
                        assert(exists|j: int| 0 <= j < i + 1 && other.spec_key(j) == k);
                    }
                    if exists|j: int| 0 <= j < i + 1 && other.spec_key(j) == k {
                        let j = choose|j: int| 0 <= j < i + 1 && other.spec_key(j) == k;
                        if j < i {
                            assert(before.contains_key(k));
                        }
                    }
                }
            }
        }
        proof {
            assert forall|k: Seq<char>| #[trigger] self@.contains_key(k) == old(self)@.union_prefer_right(
                other@,
            ).contains_key(k) by {}
            assert forall|k: Seq<char>| self@.contains_key(k) implies #[trigger] self@[k]
                == old(self)@.union_prefer_right(other@)[k] by {
                if other@.contains_key(k) {
                    let j = choose|j: int| 0 <= j < n && other.spec_key(j) == k;
                    assert(self@[other.spec_key(j)] == other.spec_value(j));
                }
            }
            assert(self@ =~= old(self)@.union_prefer_right(other@));
        }
    }
}

impl<V: Duplicate> Duplicate for StrMap<V> {
    fn duplicate(&self) -> (r: StrMap<V>) {
        let mut r = StrMap::new();
        r.extend_from(self);
        assert(r@ =~= self@);
        r
    }
}

} // verus!
