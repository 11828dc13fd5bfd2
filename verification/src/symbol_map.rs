use vstd::prelude::*;

verus! {

/// The keys of `s` increase strictly from one entry to the next.
pub open spec fn strictly_sorted<V>(s: Seq<(char, V)>) -> bool {
    forall|i: int, j: int| 0 <= i < j < s.len() ==> s[i].0 < s[j].0
}

/// The map that a sequence of entries stands for; of two entries with one
/// key the later one counts.
pub open spec fn map_of<V>(s: Seq<(char, V)>) -> Map<char, V>
    decreases s.len(),
{
    if s.len() == 0 {
        Map::empty()
    } else {
        map_of(s.drop_last()).insert(s.last().0, s.last().1)
    }
}

/// Entry `i` of `s` has the key `k`.
pub open spec fn key_index<V>(s: Seq<(char, V)>, k: char, i: int) -> bool {
    0 <= i < s.len() && s[i].0 == k
}

/// Some entry of `s` has the key `k`.
pub open spec fn has_key<V>(s: Seq<(char, V)>, k: char) -> bool {
    exists|i: int| key_index(s, k, i)
}

/// `s` lists the entries of `m` by increasing key.
pub open spec fn is_listing<V>(s: Seq<(char, V)>, m: Map<char, V>) -> bool {
    strictly_sorted(s) && map_of(s) == m
}

/// The entries of a finite map by increasing key. There is one such sequence
/// only (`lemma_listing_unique`), so the listing is a function of the map and
/// of nothing else.
pub open spec fn listing<V>(m: Map<char, V>) -> Seq<(char, V)> {
    choose|s: Seq<(char, V)>| is_listing(s, m)
}

/// The number of entries at the front of a sorted `s` whose key is below `k`.
pub open spec fn lower_bound<V>(s: Seq<(char, V)>, k: char) -> int
    decreases s.len(),
{
    if s.len() == 0 {
        0
    } else if s.last().0 < k {
        s.len() as int
    } else {
        lower_bound(s.drop_last(), k)
    }
}

/// `s` with the value `v` set for the key `k`, in the place that keeps the
/// keys sorted.
pub open spec fn put<V>(s: Seq<(char, V)>, k: char, v: V) -> Seq<(char, V)> {
    let p = lower_bound(s, k);
    if p < s.len() && s[p].0 == k {
        s.update(p, (k, v))
    } else {
        s.insert(p, (k, v))
    }
}

/// The keys of `map_of(s)` are the keys of the entries of `s`.
pub proof fn lemma_map_of_keys<V>(s: Seq<(char, V)>, k: char)
    ensures
        map_of(s).contains_key(k) <==> has_key(s, k),
    decreases s.len(),
{
    if s.len() > 0 {
        let front = s.drop_last();
        lemma_map_of_keys(front, k);
        if has_key(s, k) {
            let i = choose|i: int| key_index(s, k, i);
            if i < s.len() - 1 {
                assert(key_index(front, k, i));
            }
        }
        if has_key(front, k) {
            let i = choose|i: int| key_index(front, k, i);
            assert(key_index(s, k, i));
        }
        if s.last().0 == k {
            assert(key_index(s, k, s.len() - 1));
        }
    }
}

/// In a sorted sequence every entry is what the map holds for its key, and
/// the map has as many keys as the sequence has entries.
pub proof fn lemma_map_of_entries<V>(s: Seq<(char, V)>)
    requires
        strictly_sorted(s),
    ensures
        forall|i: int|
            0 <= i < s.len() ==> map_of(s).contains_key(#[trigger] s[i].0) && map_of(s)[s[i].0]
                == s[i].1,
        map_of(s).dom().finite(),
        map_of(s).len() == s.len(),
    decreases s.len(),
{
    if s.len() > 0 {
        let front = s.drop_last();
        let last = s.last();
        lemma_map_of_entries(front);
        lemma_map_of_keys(front, last.0);
        if has_key(front, last.0) {
            let i = choose|i: int| key_index(front, last.0, i);
            assert(s[i].0 < s[s.len() - 1].0);
        }
        assert forall|i: int| 0 <= i < s.len() implies map_of(s).contains_key(#[trigger] s[i].0)
            && map_of(s)[s[i].0] == s[i].1 by {
            if i < s.len() - 1 {
                assert(front[i] == s[i]);
                assert(s[i].0 < s[s.len() - 1].0);
            }
        }
        assert(map_of(s).dom() =~= map_of(front).dom().insert(last.0));
    }
}

/// Two sorted sequences that stand for the same map are the same sequence.
pub proof fn lemma_listing_unique<V>(a: Seq<(char, V)>, b: Seq<(char, V)>)
    requires
        strictly_sorted(a),
        strictly_sorted(b),
        map_of(a) == map_of(b),
    ensures
        a == b,
    decreases a.len(),
{
    lemma_map_of_entries(a);
    lemma_map_of_entries(b);
    if a.len() > 0 {
        let ka = a.last().0;
        let kb = b.last().0;
        assert(a[a.len() - 1].0 == ka);
        assert(b[b.len() - 1].0 == kb);
        lemma_map_of_keys(b, ka);
        lemma_map_of_keys(a, kb);
        let i = choose|i: int| key_index(b, ka, i);
        let j = choose|j: int| key_index(a, kb, j);
        assert(ka == kb) by {
            if i < b.len() - 1 {
                assert(b[i].0 < b[b.len() - 1].0);
            }
            if j < a.len() - 1 {
                assert(a[j].0 < a[a.len() - 1].0);
            }
        }
        assert(a.last().1 == b.last().1);
        lemma_front_removes_last(a);
        lemma_front_removes_last(b);
        lemma_listing_unique(a.drop_last(), b.drop_last());
        assert(a =~= a.drop_last().push(a.last()));
        assert(b =~= b.drop_last().push(b.last()));
    }
}

/// Without its last entry a sorted sequence stands for the map without the
/// last key.
proof fn lemma_front_removes_last<V>(s: Seq<(char, V)>)
    requires
        strictly_sorted(s),
        s.len() > 0,
    ensures
        strictly_sorted(s.drop_last()),
        map_of(s.drop_last()) == map_of(s).remove(s.last().0),
{
    let front = s.drop_last();
    lemma_map_of_keys(front, s.last().0);
    if has_key(front, s.last().0) {
        let i = choose|i: int| key_index(front, s.last().0, i);
        assert(s[i].0 < s[s.len() - 1].0);
    }
    assert(map_of(front) =~= map_of(s).remove(s.last().0));
}

/// `lower_bound` parts a sorted sequence into the keys below `k` and the rest.
pub proof fn lemma_lower_bound<V>(s: Seq<(char, V)>, k: char)
    requires
        strictly_sorted(s),
    ensures
        0 <= lower_bound(s, k) <= s.len(),
        forall|j: int| 0 <= j < lower_bound(s, k) ==> (#[trigger] s[j]).0 < k,
        forall|j: int| lower_bound(s, k) <= j < s.len() ==> (#[trigger] s[j]).0 >= k,
    decreases s.len(),
{
    if s.len() > 0 {
        if s.last().0 < k {
            assert forall|j: int| 0 <= j < s.len() implies (#[trigger] s[j]).0 < k by {
                if j < s.len() - 1 {
                    assert(s[j].0 < s[s.len() - 1].0);
                }
            }
        } else {
            lemma_lower_bound(s.drop_last(), k);
            assert forall|j: int| lower_bound(s, k) <= j < s.len() implies (#[trigger] s[j]).0
                >= k by {
                if j < s.len() - 1 {
                    assert(s.drop_last()[j] == s[j]);
                }
            }
            assert forall|j: int| 0 <= j < lower_bound(s, k) implies (#[trigger] s[j]).0 < k by {
                assert(s.drop_last()[j] == s[j]);
            }
        }
    }
}

/// An entry with a new key, put in anywhere, adds that key to the map.
pub proof fn lemma_map_of_insert<V>(s: Seq<(char, V)>, p: int, k: char, v: V)
    requires
        0 <= p <= s.len(),
        !has_key(s, k),
    ensures
        map_of(s.insert(p, (k, v))) == map_of(s).insert(k, v),
    decreases s.len() - p,
{
    let t = s.insert(p, (k, v));
    if p == s.len() {
        assert(t.drop_last() =~= s);
    } else {
        let front = s.drop_last();
        assert(t.drop_last() =~= front.insert(p, (k, v)));
        assert(t.last() == s.last());
        assert(!has_key(front, k)) by {
            if has_key(front, k) {
                let i = choose|i: int| key_index(front, k, i);
                assert(key_index(s, k, i));
            }
        }
        assert(s.last().0 != k) by {
            if s.last().0 == k {
                assert(key_index(s, k, s.len() - 1));
            }
        }
        lemma_map_of_insert(front, p, k, v);
        assert(map_of(t) =~= map_of(s).insert(k, v));
    }
}

/// A new value in the place of an entry of a sorted sequence sets the value
/// of that key in the map.
pub proof fn lemma_map_of_update<V>(s: Seq<(char, V)>, p: int, v: V)
    requires
        strictly_sorted(s),
        0 <= p < s.len(),
    ensures
        map_of(s.update(p, (s[p].0, v))) == map_of(s).insert(s[p].0, v),
    decreases s.len() - p,
{
    let k = s[p].0;
    let t = s.update(p, (k, v));
    if p == s.len() - 1 {
        assert(t.drop_last() =~= s.drop_last());
        assert(map_of(t) =~= map_of(s).insert(k, v));
    } else {
        let front = s.drop_last();
        assert(t.drop_last() =~= front.update(p, (front[p].0, v)));
        assert(t.last() == s.last());
        assert(s[p].0 < s[s.len() - 1].0);
        lemma_map_of_update(front, p, v);
        assert(map_of(t) =~= map_of(s).insert(k, v));
    }
}

/// `put` keeps a sequence sorted and sets the value of its key in the map.
pub proof fn lemma_put<V>(s: Seq<(char, V)>, k: char, v: V)
    requires
        strictly_sorted(s),
    ensures
        strictly_sorted(put(s, k, v)),
        map_of(put(s, k, v)) == map_of(s).insert(k, v),
{
    let p = lower_bound(s, k);
    lemma_lower_bound(s, k);
    if p < s.len() && s[p].0 == k {
        lemma_map_of_update(s, p, v);
    } else {
        assert(!has_key(s, k)) by {
            if has_key(s, k) {
                let i = choose|i: int| key_index(s, k, i);
                if i > p {
                    assert(s[p].0 < s[i].0);
                }
            }
        }
        lemma_map_of_insert(s, p, k, v);
    }
}

/// A map from symbols to values, kept as entries sorted by symbol, so that
/// walking it never depends on the order in which it was filled.
#[derive(Debug, PartialEq, Eq)]
pub struct SymbolMap<V> {
    entries: Vec<(char, V)>,
}

impl<V> View for SymbolMap<V> {
    type V = Map<char, V>;

    closed spec fn view(&self) -> Map<char, V> {
        map_of(self.entries@)
    }
}

/// The index that parts sorted entries into the keys below `key` and the
/// rest, found by halving.
fn search<V>(entries: &Vec<(char, V)>, key: char) -> (p: usize)
    requires
        strictly_sorted(entries@),
    ensures
        p == lower_bound(entries@, key),
        p <= entries.len(),
        p < entries.len() && entries[p as int].0 == key <==> has_key(entries@, key),
{
    let mut lo: usize = 0;
    let mut hi: usize = entries.len();
    while lo < hi
        invariant
            strictly_sorted(entries@),
            lo <= hi <= entries.len(),
            forall|j: int| 0 <= j < lo ==> (#[trigger] entries[j]).0 < key,
            forall|j: int| hi <= j < entries.len() ==> (#[trigger] entries[j]).0 >= key,
        decreases hi - lo,
    {
        let mid = lo + (hi - lo) / 2;
        if entries[mid].0 < key {
            assert forall|j: int| 0 <= j < mid + 1 implies (#[trigger] entries[j]).0 < key by {
                if j < mid {
                    assert(entries[j].0 < entries[mid as int].0);
                }
            }
            lo = mid + 1;
        } else {
            assert forall|j: int| mid <= j < entries.len() implies (#[trigger] entries[j]).0
                >= key by {
                if mid < j {
                    assert(entries[mid as int].0 < entries[j].0);
                }
            }
            hi = mid;
        }
    }
    proof {
        let s = entries@;
        lemma_lower_bound(s, key);
        let q = lower_bound(s, key);
        if q < lo {
            assert(s[q].0 >= key);
        }
        if lo < q {
            assert(s[lo as int].0 < key);
        }
        if has_key(s, key) {
            let i = choose|i: int| key_index(s, key, i);
            if i < lo {
                assert(s[i].0 < key);
            }
            if lo < i {
                assert(s[lo as int].0 < s[i].0);
            }
        }
        if lo < s.len() && s[lo as int].0 == key {
            assert(key_index(s, key, lo as int));
        }
    }
    lo
}

impl<V> SymbolMap<V> {
    #[verifier::type_invariant]
    closed spec fn sorted(&self) -> bool {
        strictly_sorted(self.entries@)
    }

    /// A map without entries.
    pub fn new() -> (map: Self)
        ensures
            map@ == Map::<char, V>::empty(),
    {
        SymbolMap { entries: Vec::new() }
    }

    /// The number of symbols that have a value.
    pub fn len(&self) -> (n: usize)
        ensures
            n == self@.len(),
            n == listing(self@).len(),
            self@.dom().finite(),
            is_listing(listing(self@), self@),
    {
        proof {
            use_type_invariant(self);
            lemma_map_of_entries(self.entries@);
            self.lemma_entries_are_listing();
        }
        self.entries.len()
    }

    /// Whether no symbol has a value.
    pub fn is_empty(&self) -> (empty: bool)
        ensures
            empty == (self@ == Map::<char, V>::empty()),
    {
        proof {
            use_type_invariant(self);
            lemma_map_of_entries(self.entries@);
            if self.entries@.len() > 0 {
                assert(self@.contains_key(self.entries@[0].0));
            }
        }
        self.entries.len() == 0
    }

    /// Whether `key` has a value.
    pub fn contains_key(&self, key: &char) -> (found: bool)
        ensures
            found == self@.contains_key(*key),
    {
        proof {
            use_type_invariant(self);
            lemma_map_of_keys(self.entries@, *key);
        }
        let p = search(&self.entries, *key);
        p < self.entries.len() && self.entries[p].0 == *key
    }

    /// The value of `key`, if it has one.
    pub fn get(&self, key: &char) -> (value: Option<&V>)
        ensures
            match value {
                Some(v) => self@.contains_key(*key) && *v == self@[*key],
                None => !self@.contains_key(*key),
            },
    {
        proof {
            use_type_invariant(self);
            lemma_map_of_keys(self.entries@, *key);
            lemma_map_of_entries(self.entries@);
        }
        let p = search(&self.entries, *key);
        if p < self.entries.len() && self.entries[p].0 == *key {
            Some(&self.entries[p].1)
        } else {
            None
        }
    }

    /// Sets the value of `key` and hands back the value that it had.
    pub fn insert(&mut self, key: char, value: V) -> (previous: Option<V>)
        ensures
            final(self)@ == old(self)@.insert(key, value),
            previous == if old(self)@.contains_key(key) {
                Some(old(self)@[key])
            } else {
                None
            },
    {
        proof {
            use_type_invariant(&*self);
            lemma_map_of_keys(self.entries@, key);
            lemma_map_of_entries(self.entries@);
            lemma_put(self.entries@, key, value);
        }
        let ghost before = self.entries@;
        let mut entries: Vec<(char, V)> = Vec::new();
        std::mem::swap(&mut entries, &mut self.entries);
        let p = search(&entries, key);
        let previous = if p < entries.len() && entries[p].0 == key {
            entries.push((key, value));
            let replaced = entries.swap_remove(p);
            Some(replaced.1)
        } else {
            entries.insert(p, (key, value));
            None
        };
        assert(entries@ == put(before, key, value));
        self.entries = entries;
        previous
    }

    /// The symbol of entry `i`, the entries counted by increasing symbol.
    pub fn key_at(&self, i: usize) -> (key: char)
        requires
            i < self@.len(),
        ensures
            key == listing(self@)[i as int].0,
    {
        proof {
            use_type_invariant(self);
            lemma_map_of_entries(self.entries@);
            self.lemma_entries_are_listing();
        }
        self.entries[i].0
    }

    /// The value of entry `i`, the entries counted by increasing symbol.
    pub fn value_at(&self, i: usize) -> (value: &V)
        requires
            i < self@.len(),
        ensures
            *value == listing(self@)[i as int].1,
    {
        proof {
            use_type_invariant(self);
            lemma_map_of_entries(self.entries@);
            self.lemma_entries_are_listing();
        }
        &self.entries[i].1
    }

    /// The entries of a map are the listing of its view.
    proof fn lemma_entries_are_listing(&self)
        requires
            strictly_sorted(self.entries@),
        ensures
            self.entries@ == listing(self@),
    {
        assert(is_listing(self.entries@, self@));
        lemma_listing_unique(self.entries@, listing(self@));
    }
}

/// The listing of a map that has one is sorted, stands for the map, and is as
/// long as the map is large.
pub proof fn lemma_listing<V>(m: Map<char, V>, witness: Seq<(char, V)>)
    requires
        is_listing(witness, m),
    ensures
        listing(m) == witness,
        strictly_sorted(listing(m)),
        map_of(listing(m)) == m,
        listing(m).len() == m.len(),
{
    lemma_listing_unique(witness, listing(m));
    lemma_map_of_entries(witness);
}

} // verus!
