//! A map from text to text that keeps its entries in increasing key order.

use crate::text::{bytes_eq, utf8};
use vstd::prelude::*;
use vstd::string::*;

verus! {

/// Lexicographic order on byte strings: the order of `str` and `String`.
pub open spec fn bytes_lt(a: Seq<u8>, b: Seq<u8>) -> bool
    decreases a.len(),
{
    if b.len() == 0 {
        false
    } else if a.len() == 0 {
        true
    } else if a[0] != b[0] {
        a[0] < b[0]
    } else {
        bytes_lt(a.drop_first(), b.drop_first())
    }
}

/// No byte string is below itself.
pub proof fn lemma_bytes_lt_irreflexive(a: Seq<u8>)
    ensures
        !bytes_lt(a, a),
    decreases a.len(),
{
    if a.len() > 0 {
        lemma_bytes_lt_irreflexive(a.drop_first());
    }
}

/// The order is transitive.
pub proof fn lemma_bytes_lt_transitive(a: Seq<u8>, b: Seq<u8>, c: Seq<u8>)
    requires
        bytes_lt(a, b),
        bytes_lt(b, c),
    ensures
        bytes_lt(a, c),
    decreases a.len(),
{
    if a.len() > 0 && b.len() > 0 && c.len() > 0 && a[0] == b[0] && b[0] == c[0] {
        lemma_bytes_lt_transitive(a.drop_first(), b.drop_first(), c.drop_first());
    }
}

/// Of two different byte strings one is below the other.
pub proof fn lemma_bytes_lt_total(a: Seq<u8>, b: Seq<u8>)
    ensures
        bytes_lt(a, b) || bytes_lt(b, a) || a == b,
    decreases a.len(),
{
    if a.len() > 0 && b.len() > 0 && a[0] == b[0] {
        lemma_bytes_lt_total(a.drop_first(), b.drop_first());
        if a.drop_first() == b.drop_first() {
            assert(a =~= seq![a[0]] + a.drop_first());
            assert(b =~= seq![b[0]] + b.drop_first());
        }
    } else if a.len() == 0 && b.len() == 0 {
        assert(a =~= b);
    }
}

/// Two byte strings that agree on their first `k` bytes compare as what
/// follows those bytes.
pub proof fn lemma_bytes_lt_skip(a: Seq<u8>, b: Seq<u8>, k: int)
    requires
        0 <= k <= a.len(),
        k <= b.len(),
        a.subrange(0, k) == b.subrange(0, k),
    ensures
        bytes_lt(a, b) == bytes_lt(a.skip(k), b.skip(k)),
    decreases k,
{
    if k == 0 {
        assert(a.skip(0) =~= a);
        assert(b.skip(0) =~= b);
    } else {
        assert(a[0] == a.subrange(0, k)[0]);
        assert(b[0] == b.subrange(0, k)[0]);
        assert(a.drop_first().subrange(0, k - 1) =~= a.subrange(0, k).drop_first());
        assert(b.drop_first().subrange(0, k - 1) =~= b.subrange(0, k).drop_first());
        lemma_bytes_lt_skip(a.drop_first(), b.drop_first(), k - 1);
        assert(a.drop_first().skip(k - 1) =~= a.skip(k));
        assert(b.drop_first().skip(k - 1) =~= b.skip(k));
    }
}

/// Whether `a` comes before `b` in lexicographic order.
pub fn bytes_less(a: &[u8], b: &[u8]) -> (r: bool)
    ensures
        r == bytes_lt(a@, b@),
{
    let mut i: usize = 0;
    while i < a.len() && i < b.len()
        invariant
            0 <= i <= a.len(),
            i <= b.len(),
            a@.subrange(0, i as int) == b@.subrange(0, i as int),
        decreases a.len() - i,
    {
        if a[i] != b[i] {
            proof {
                lemma_bytes_lt_skip(a@, b@, i as int);
            }
            return a[i] < b[i];
        }
        proof {
            assert(a@.subrange(0, i + 1) =~= a@.subrange(0, i as int).push(a@[i as int]));
            assert(b@.subrange(0, i + 1) =~= b@.subrange(0, i as int).push(b@[i as int]));
        }
        i += 1;
    }
    proof {
        lemma_bytes_lt_skip(a@, b@, i as int);
    }
    i < b.len()
}

/// Whether `s` lists the pairs of `m`, each once, in increasing key order.
pub open spec fn is_listing(s: Seq<(Seq<u8>, Seq<u8>)>, m: Map<Seq<u8>, Seq<u8>>) -> bool {
    &&& forall|i: int, j: int| 0 <= i < j < s.len() ==> bytes_lt(#[trigger] s[i].0, #[trigger] s[j].0)
    &&& forall|i: int| 0 <= i < s.len() ==> m.contains_pair(#[trigger] s[i].0, s[i].1)
    &&& forall|k: Seq<u8>| #[trigger]
        m.contains_key(k) ==> exists|i: int| 0 <= i < s.len() && #[trigger] s[i].0 == k
}

/// The pairs of a map in increasing key order.
pub open spec fn listing(m: Map<Seq<u8>, Seq<u8>>) -> Seq<(Seq<u8>, Seq<u8>)> {
    choose|s: Seq<(Seq<u8>, Seq<u8>)>| is_listing(s, m)
}

/// A map has at most one listing.
pub proof fn lemma_listing_unique(
    s1: Seq<(Seq<u8>, Seq<u8>)>,
    s2: Seq<(Seq<u8>, Seq<u8>)>,
    m: Map<Seq<u8>, Seq<u8>>,
)
    requires
        is_listing(s1, m),
        is_listing(s2, m),
    ensures
        s1 == s2,
    decreases s1.len(),
{
    if s1.len() == 0 {
        if s2.len() > 0 {
            assert(m.contains_key(s2[0].0));
        }
        assert(s1 =~= s2);
    } else if s2.len() == 0 {
        assert(m.contains_key(s1[0].0));
    } else {
        let l1 = s1.len() - 1;
        let l2 = s2.len() - 1;
        let k1 = s1[l1].0;
        let k2 = s2[l2].0;
        assert(m.contains_key(k1));
        assert(m.contains_key(k2));
        let j2 = choose|i: int| 0 <= i < s2.len() && #[trigger] s2[i].0 == k1;
        let j1 = choose|i: int| 0 <= i < s1.len() && #[trigger] s1[i].0 == k2;
        if k1 != k2 {
            assert(bytes_lt(k1, k2));
            assert(bytes_lt(k2, k1));
            lemma_bytes_lt_transitive(k1, k2, k1);
            lemma_bytes_lt_irreflexive(k1);
        }
        let m2 = m.remove(k1);
        let t1 = s1.drop_last();
        let t2 = s2.drop_last();
        assert(is_listing(t1, m2)) by {
            lemma_listing_drop_last(s1, m);
        }
        assert(is_listing(t2, m2)) by {
            lemma_listing_drop_last(s2, m);
        }
        lemma_listing_unique(t1, t2, m2);
        assert(s1[l1] == s2[l2]);
        assert(s1 =~= t1.push(s1[l1]));
        assert(s2 =~= t2.push(s2[l2]));
    }
}

/// A listing without its last pair lists the map without that key.
pub proof fn lemma_listing_drop_last(s: Seq<(Seq<u8>, Seq<u8>)>, m: Map<Seq<u8>, Seq<u8>>)
    requires
        is_listing(s, m),
        s.len() > 0,
    ensures
        is_listing(s.drop_last(), m.remove(s.last().0)),
{
    let t = s.drop_last();
    let k = s.last().0;
    let m2 = m.remove(k);
    assert forall|i: int| 0 <= i < t.len() implies m2.contains_pair(#[trigger] t[i].0, t[i].1) by {
        assert(bytes_lt(s[i].0, s[s.len() - 1].0));
        lemma_bytes_lt_irreflexive(k);
        assert(m.contains_pair(s[i].0, s[i].1));
    }
    assert forall|k2: Seq<u8>| #[trigger] m2.contains_key(k2) implies exists|i: int|
        0 <= i < t.len() && #[trigger] t[i].0 == k2 by {
        assert(m.contains_key(k2));
        let i = choose|i: int| 0 <= i < s.len() && #[trigger] s[i].0 == k2;
        assert(i < t.len());
        assert(t[i].0 == k2);
    }
    assert forall|i: int, j: int| 0 <= i < j < t.len() implies bytes_lt(
        #[trigger] t[i].0,
        #[trigger] t[j].0,
    ) by {
        assert(bytes_lt(s[i].0, s[j].0));
    }
}

/// The byte pairs that a sequence of entries stands for.
pub open spec fn entry_pairs(e: Seq<(String, String)>) -> Seq<(Seq<u8>, Seq<u8>)> {
    Seq::new(e.len(), |i: int| (utf8(e[i].0@), utf8(e[i].1@)))
}

/// Whether the keys of a sequence of pairs strictly increase.
pub open spec fn increasing(s: Seq<(Seq<u8>, Seq<u8>)>) -> bool {
    forall|i: int, j: int| 0 <= i < j < s.len() ==> bytes_lt(#[trigger] s[i].0, #[trigger] s[j].0)
}

/// Whether `k` is the key at place `i` of `s`.
pub open spec fn key_at_place(s: Seq<(Seq<u8>, Seq<u8>)>, k: Seq<u8>, i: int) -> bool {
    0 <= i < s.len() && s[i].0 == k
}

/// A place of `s` that holds the key `k`.
pub open spec fn place_of(s: Seq<(Seq<u8>, Seq<u8>)>, k: Seq<u8>) -> int {
    choose|i: int| key_at_place(s, k, i)
}

/// The map that a sequence of pairs with increasing keys lists.
pub open spec fn pairs_map(s: Seq<(Seq<u8>, Seq<u8>)>) -> Map<Seq<u8>, Seq<u8>> {
    Map::new(
        |k: Seq<u8>| exists|i: int| key_at_place(s, k, i),
        |k: Seq<u8>| s[place_of(s, k)].1,
    )
}

/// Pairs with increasing keys have distinct keys.
pub proof fn lemma_increasing_distinct(s: Seq<(Seq<u8>, Seq<u8>)>, i: int, j: int)
    requires
        increasing(s),
        0 <= i < s.len(),
        0 <= j < s.len(),
        s[i].0 == s[j].0,
    ensures
        i == j,
{
    lemma_bytes_lt_irreflexive(s[i].0);
    if i < j {
        assert(bytes_lt(s[i].0, s[j].0));
    } else if j < i {
        assert(bytes_lt(s[j].0, s[i].0));
    }
}

/// Pairs with increasing keys are the listing of their map.
pub proof fn lemma_pairs_listing(s: Seq<(Seq<u8>, Seq<u8>)>)
    requires
        increasing(s),
    ensures
        is_listing(s, pairs_map(s)),
        listing(pairs_map(s)) == s,
        forall|i: int| 0 <= i < s.len() ==> #[trigger] pairs_map(s).contains_pair(s[i].0, s[i].1),
{
    let m = pairs_map(s);
    assert forall|i: int| 0 <= i < s.len() implies m.contains_pair(#[trigger] s[i].0, s[i].1) by {
        let k = s[i].0;
        assert(key_at_place(s, k, i));
        lemma_increasing_distinct(s, i, place_of(s, k));
    }
    assert forall|k: Seq<u8>| #[trigger] m.contains_key(k) implies exists|i: int|
        0 <= i < s.len() && #[trigger] s[i].0 == k by {
        let i = place_of(s, k);
        assert(key_at_place(s, k, i));
        assert(s[i].0 == k);
    }
    assert(is_listing(s, m));
    lemma_listing_unique(s, listing(m), m);
}

/// A map from text to text. Each key occurs once; the entries are kept in
/// increasing order of the keys' bytes.
#[derive(Debug, PartialEq, Eq)]
pub struct StringMap {
    entries: Vec<(String, String)>,
}

impl View for StringMap {
    type V = Map<Seq<u8>, Seq<u8>>;

    closed spec fn view(&self) -> Map<Seq<u8>, Seq<u8>> {
        pairs_map(entry_pairs(self.entries@))
    }
}

impl StringMap {
    #[verifier::type_invariant]
    spec fn ordered(self) -> bool {
        increasing(entry_pairs(self.entries@))
    }

    /// The empty map.
    pub fn new() -> (r: StringMap)
        ensures
            r@ == Map::<Seq<u8>, Seq<u8>>::empty(),
    {
        let r = StringMap { entries: Vec::new() };
        proof {
            assert(r@ =~= Map::<Seq<u8>, Seq<u8>>::empty());
        }
        r
    }

    /// The number of entries.
    pub fn len(&self) -> (r: usize)
        ensures
            r == listing(self@).len(),
            r == self@.dom().len(),
            self@.dom().finite(),
    {
        proof {
            use_type_invariant(self);
            lemma_pairs_listing(entry_pairs(self.entries@));
            lemma_listing_dom(entry_pairs(self.entries@), self@);
        }
        self.entries.len()
    }

    /// Whether the map has no entry.
    pub fn is_empty(&self) -> (r: bool)
        ensures
            r == (self@ == Map::<Seq<u8>, Seq<u8>>::empty()),
    {
        proof {
            use_type_invariant(self);
            lemma_pairs_listing(entry_pairs(self.entries@));
            if self.entries@.len() > 0 {
                assert(self@.contains_key(entry_pairs(self.entries@)[0].0));
            } else {
                assert(self@ =~= Map::<Seq<u8>, Seq<u8>>::empty());
            }
        }
        self.entries.len() == 0
    }

    /// The key of the entry at place `i` in increasing key order.
    pub fn key_at(&self, i: usize) -> (r: &String)
        requires
            i < listing(self@).len(),
        ensures
            utf8(r@) == listing(self@)[i as int].0,
    {
        proof {
            use_type_invariant(self);
            lemma_pairs_listing(entry_pairs(self.entries@));
        }
        &self.entries[i].0
    }

    /// The value of the entry at place `i` in increasing key order.
    pub fn value_at(&self, i: usize) -> (r: &String)
        requires
            i < listing(self@).len(),
        ensures
            utf8(r@) == listing(self@)[i as int].1,
    {
        proof {
            use_type_invariant(self);
            lemma_pairs_listing(entry_pairs(self.entries@));
        }
        &self.entries[i].1
    }

    /// The value stored under `key`.
    pub fn get(&self, key: &str) -> (r: Option<&String>)
        ensures
            match r {
                Some(v) => self@.contains_pair(key.spec_bytes(), utf8(v@)),
                None => !self@.contains_key(key.spec_bytes()),
            },
    {
        proof {
            use_type_invariant(self);
            lemma_pairs_listing(entry_pairs(self.entries@));
        }
        let ghost pairs = entry_pairs(self.entries@);
        let mut i: usize = 0;
        while i < self.entries.len()
            invariant
                0 <= i <= self.entries@.len(),
                pairs == entry_pairs(self.entries@),
                forall|j: int| 0 <= j < i ==> (#[trigger] pairs[j]).0 != key.spec_bytes(),
                forall|j: int|
                    0 <= j < pairs.len() ==> #[trigger] self@.contains_pair(pairs[j].0, pairs[j].1),
            decreases self.entries@.len() - i,
        {
            if bytes_eq(self.entries[i].0.as_str().as_bytes(), key.as_bytes()) {
                proof {
                    assert(self@.contains_pair(pairs[i as int].0, pairs[i as int].1));
                }
                return Some(&self.entries[i].1);
            }
            i += 1;
        }
        None
    }

    /// Whether an entry is stored under `key`.
    pub fn contains_key(&self, key: &str) -> (r: bool)
        ensures
            r == self@.contains_key(key.spec_bytes()),
    {
        self.get(key).is_some()
    }

    /// Stores `value` under `key`, in place of what was stored under it.
    pub fn insert(&mut self, key: String, value: String)
        ensures
            final(self)@ == old(self)@.insert(utf8(key@), utf8(value@)),
    {
        proof {
            use_type_invariant(&*self);
        }
        let mut taken = StringMap { entries: Vec::new() };
        core::mem::swap(self, &mut taken);
        let mut entries = taken.entries;
        let ghost before = entry_pairs(entries@);
        let ghost k = utf8(key@);
        let ghost v = utf8(value@);
        let mut i: usize = 0;
        while i < entries.len() && bytes_less(
            entries[i].0.as_str().as_bytes(),
            key.as_str().as_bytes(),
        )
            invariant
                0 <= i <= entries@.len(),
                before == entry_pairs(entries@),
                k == utf8(key@),
                forall|j: int| 0 <= j < i ==> bytes_lt((#[trigger] before[j]).0, k),
            decreases entries@.len() - i,
        {
            i += 1;
        }
        let replace = i < entries.len() && bytes_eq(
            entries[i].0.as_str().as_bytes(),
            key.as_str().as_bytes(),
        );
        proof {
            if i < before.len() {
                lemma_bytes_lt_total(before[i as int].0, k);
            }
            lemma_pairs_listing(before);
        }
        if replace {
            proof {
                assert(entry_pairs(entries@.remove(i as int)) =~= before.remove(i as int));
            }
            entries.remove(i);
        }
        proof {
            let after = entry_pairs(entries@.insert(i as int, (key, value)));
            if replace {
                assert(after =~= before.update(i as int, (k, v)));
                lemma_listing_update(before, pairs_map(before), i as int, v);
            } else {
                assert(after =~= before.insert(i as int, (k, v)));
                lemma_listing_insert(before, pairs_map(before), i as int, k, v);
            }
            lemma_pairs_listing(after);
            lemma_listing_same_map(after, pairs_map(after), pairs_map(before).insert(k, v));
        }
        entries.insert(i, (key, value));
        self.entries = entries;
    }
}

/// Two maps with the same listing are the same map.
pub proof fn lemma_listing_same_map(
    s: Seq<(Seq<u8>, Seq<u8>)>,
    m1: Map<Seq<u8>, Seq<u8>>,
    m2: Map<Seq<u8>, Seq<u8>>,
)
    requires
        is_listing(s, m1),
        is_listing(s, m2),
    ensures
        m1 == m2,
{
    assert forall|k: Seq<u8>| m1.contains_key(k) implies m2.contains_key(k) && m1[k] == m2[k] by {
        let i = choose|i: int| 0 <= i < s.len() && #[trigger] s[i].0 == k;
        assert(m1.contains_pair(s[i].0, s[i].1));
        assert(m2.contains_pair(s[i].0, s[i].1));
    }
    assert forall|k: Seq<u8>| m2.contains_key(k) implies m1.contains_key(k) by {
        let i = choose|i: int| 0 <= i < s.len() && #[trigger] s[i].0 == k;
        assert(m1.contains_pair(s[i].0, s[i].1));
    }
    assert(m1 =~= m2);
}

/// Giving the pair at place `i` of a listing a new value lists the map with
/// that value under the pair's key.
pub proof fn lemma_listing_update(
    s: Seq<(Seq<u8>, Seq<u8>)>,
    m: Map<Seq<u8>, Seq<u8>>,
    i: int,
    v: Seq<u8>,
)
    requires
        is_listing(s, m),
        0 <= i < s.len(),
    ensures
        is_listing(s.update(i, (s[i].0, v)), m.insert(s[i].0, v)),
{
    let k = s[i].0;
    let t = s.update(i, (k, v));
    let m2 = m.insert(k, v);
    assert forall|a: int, b: int| 0 <= a < b < t.len() implies bytes_lt(
        #[trigger] t[a].0,
        #[trigger] t[b].0,
    ) by {
        assert(bytes_lt(s[a].0, s[b].0));
    }
    assert forall|c: int| 0 <= c < t.len() implies m2.contains_pair(#[trigger] t[c].0, t[c].1) by {
        if c != i {
            assert(m.contains_pair(s[c].0, s[c].1));
            lemma_bytes_lt_irreflexive(k);
            if c < i {
                assert(bytes_lt(s[c].0, s[i].0));
            } else {
                assert(bytes_lt(s[i].0, s[c].0));
            }
        }
    }
    assert forall|q: Seq<u8>| #[trigger] m2.contains_key(q) implies exists|c: int|
        0 <= c < t.len() && #[trigger] t[c].0 == q by {
        if q == k {
            assert(t[i].0 == q);
        } else {
            assert(m.contains_key(q));
            let c = choose|c: int| 0 <= c < s.len() && #[trigger] s[c].0 == q;
            assert(t[c].0 == q);
        }
    }
}

/// Putting a new key at the place that the order gives it lists the map
/// with that key added.
pub proof fn lemma_listing_insert(
    s: Seq<(Seq<u8>, Seq<u8>)>,
    m: Map<Seq<u8>, Seq<u8>>,
    i: int,
    k: Seq<u8>,
    v: Seq<u8>,
)
    requires
        is_listing(s, m),
        0 <= i <= s.len(),
        forall|j: int| 0 <= j < i ==> bytes_lt((#[trigger] s[j]).0, k),
        i < s.len() ==> bytes_lt(k, s[i].0),
    ensures
        is_listing(s.insert(i, (k, v)), m.insert(k, v)),
{
    let t = s.insert(i, (k, v));
    let m2 = m.insert(k, v);
    assert forall|j: int| i <= j < s.len() implies bytes_lt(k, (#[trigger] s[j]).0) by {
        if j > i {
            assert(bytes_lt(s[i].0, s[j].0));
            lemma_bytes_lt_transitive(k, s[i].0, s[j].0);
        }
    }
    assert forall|a: int, b: int| 0 <= a < b < t.len() implies bytes_lt(
        #[trigger] t[a].0,
        #[trigger] t[b].0,
    ) by {
        let a0 = if a < i { a } else { a - 1 };
        let b0 = if b < i { b } else { b - 1 };
        if a == i {
            assert(t[b] == s[b0]);
        } else if b == i {
            assert(t[a] == s[a0]);
        } else {
            assert(t[a] == s[a0]);
            assert(t[b] == s[b0]);
            assert(bytes_lt(s[a0].0, s[b0].0));
        }
    }
    assert forall|c: int| 0 <= c < t.len() implies m2.contains_pair(#[trigger] t[c].0, t[c].1) by {
        if c != i {
            let c0 = if c < i { c } else { c - 1 };
            assert(t[c] == s[c0]);
            assert(m.contains_pair(s[c0].0, s[c0].1));
            lemma_bytes_lt_irreflexive(k);
        }
    }
    assert forall|q: Seq<u8>| #[trigger] m2.contains_key(q) implies exists|c: int|
        0 <= c < t.len() && #[trigger] t[c].0 == q by {
        if q == k {
            assert(t[i].0 == q);
        } else {
            assert(m.contains_key(q));
            let c = choose|c: int| 0 <= c < s.len() && #[trigger] s[c].0 == q;
            let c1 = if c < i { c } else { c + 1 };
            assert(t[c1] == s[c]);
            assert(t[c1].0 == q);
        }
    }
}

/// The place that the order gives to the key `k` in a listing: after the
/// keys below it.
pub open spec fn place_for(s: Seq<(Seq<u8>, Seq<u8>)>, k: Seq<u8>) -> int
    decreases s.len(),
{
    if s.len() == 0 {
        0
    } else if bytes_lt(s.last().0, k) {
        s.len() as int
    } else {
        place_for(s.drop_last(), k)
    }
}

/// The keys before the place of a new key are below it, and the key at
/// that place is above it.
pub proof fn lemma_place_for(s: Seq<(Seq<u8>, Seq<u8>)>, k: Seq<u8>)
    requires
        increasing(s),
        forall|i: int| 0 <= i < s.len() ==> (#[trigger] s[i]).0 != k,
    ensures
        0 <= place_for(s, k) <= s.len(),
        forall|j: int| 0 <= j < place_for(s, k) ==> bytes_lt((#[trigger] s[j]).0, k),
        place_for(s, k) < s.len() ==> bytes_lt(k, s[place_for(s, k)].0),
    decreases s.len(),
{
    if s.len() == 0 {
    } else if bytes_lt(s.last().0, k) {
        assert forall|j: int| 0 <= j < s.len() implies bytes_lt((#[trigger] s[j]).0, k) by {
            if j < s.len() - 1 {
                assert(bytes_lt(s[j].0, s[s.len() - 1].0));
                lemma_bytes_lt_transitive(s[j].0, s.last().0, k);
            }
        }
    } else {
        let init = s.drop_last();
        assert forall|i: int, j: int| 0 <= i < j < init.len() implies bytes_lt(
            #[trigger] init[i].0,
            #[trigger] init[j].0,
        ) by {
            assert(bytes_lt(s[i].0, s[j].0));
        }
        assert forall|i: int| 0 <= i < init.len() implies (#[trigger] init[i]).0 != k by {
            assert(init[i] == s[i]);
        }
        lemma_place_for(init, k);
        let p = place_for(init, k);
        assert forall|j: int| 0 <= j < p implies bytes_lt((#[trigger] s[j]).0, k) by {
            assert(s[j] == init[j]);
        }
        if p == init.len() {
            lemma_bytes_lt_total(s.last().0, k);
            assert(s[s.len() - 1].0 != k);
        } else {
            assert(s[p] == init[p]);
        }
    }
}

/// Every map with finitely many keys has a listing.
pub proof fn lemma_listing_exists(m: Map<Seq<u8>, Seq<u8>>)
    requires
        m.dom().finite(),
    ensures
        is_listing(listing(m), m),
    decreases m.dom().len(),
{
    if m.dom().len() == 0 {
        let none = Seq::<(Seq<u8>, Seq<u8>)>::empty();
        assert forall|k: Seq<u8>| !m.contains_key(k) by {
            if m.dom().contains(k) {
                assert(m.dom().len() != 0);
            }
        }
        assert(is_listing(none, m));
    } else {
        let k = m.dom().choose();
        let v = m[k];
        let less = m.remove(k);
        assert(less.dom() =~= m.dom().remove(k));
        lemma_listing_exists(less);
        let s = listing(less);
        assert forall|i: int| 0 <= i < s.len() implies (#[trigger] s[i]).0 != k by {
            assert(less.contains_pair(s[i].0, s[i].1));
        }
        lemma_place_for(s, k);
        lemma_listing_insert(s, less, place_for(s, k), k, v);
        assert(less.insert(k, v) =~= m);
        assert(is_listing(s.insert(place_for(s, k), (k, v)), m));
    }
}

/// The keys of a map with a listing are as many as the listing is long.
pub proof fn lemma_listing_dom(s: Seq<(Seq<u8>, Seq<u8>)>, m: Map<Seq<u8>, Seq<u8>>)
    requires
        is_listing(s, m),
    ensures
        m.dom().finite(),
        m.dom().len() == s.len(),
    decreases s.len(),
{
    if s.len() == 0 {
        assert(m.dom() =~= Set::<Seq<u8>>::empty());
    } else {
        let k = s.last().0;
        lemma_listing_drop_last(s, m);
        lemma_listing_dom(s.drop_last(), m.remove(k));
        assert(m.contains_key(k));
        assert(m.dom() =~= m.remove(k).dom().insert(k));
    }
}

} // verus!
