use vstd::prelude::*;
use vstd::std_specs::iter::IteratorSpec;

verus! {

broadcast use vstd::string::axiom_spec_iter;

/// The characters of a string.
pub(crate) fn chars_of(s: &str) -> (r: Vec<char>)
    ensures
        r@ == s@,
{
    let ghost all = s@;
    let mut out: Vec<char> = Vec::new();
    for c in it: s.chars()
        invariant
            it.seq() == all,
            all == s@,
            out@.len() == it.index(),
            forall|j: int| 0 <= j < out@.len() ==> out@[j] == all[j],
    {
        out.push(c);
    }
    assert(out@ =~= all);
    out
}

/// ASCII lowercase of a character; other characters are kept.
pub open spec fn ascii_lower_char(c: char) -> char {
    if 65 <= (c as u32) && (c as u32) <= 90 {
        ((c as u32) + 32) as char
    } else {
        c
    }
}

/// ASCII lowercase of a string, character by character.
pub open spec fn ascii_lower(s: Seq<char>) -> Seq<char> {
    Seq::new(s.len(), |i: int| ascii_lower_char(s[i]))
}

/// `str::to_ascii_lowercase`: every ASCII uppercase letter is mapped to its
/// lowercase form, every other character is kept.
#[verifier::external_body]
pub(crate) fn to_ascii_lowercase(s: &str) -> (r: String)
    ensures
        r@ == ascii_lower(s@),
{
    s.to_ascii_lowercase()
}

/// Lowercasing twice is lowercasing once.
pub proof fn lemma_ascii_lower_idempotent(s: Seq<char>)
    ensures
        ascii_lower(ascii_lower(s)) == ascii_lower(s),
{
    assert(ascii_lower(ascii_lower(s)) =~= ascii_lower(s));
}

/// The map described by the pairs of `s`, keyed by the strings' contents.
pub open spec fn str_pairs_map<V>(s: Seq<(String, V)>) -> Map<Seq<char>, V> {
    Map::new(
        |k: Seq<char>| exists|i: int| 0 <= i < s.len() && (#[trigger] s[i]).0@ == k,
        |k: Seq<char>| s[choose|i: int| 0 <= i < s.len() && (#[trigger] s[i]).0@ == k].1,
    )
}

/// No key appears twice among the pairs.
pub open spec fn unique_str_keys<V>(s: Seq<(String, V)>) -> bool {
    forall|i: int, j: int| 0 <= i < s.len() && 0 <= j < s.len() && i != j ==> (#[trigger] s[i]).0@ != (#[trigger] s[j]).0@
}

/// With unique keys, the map holds exactly the pairs' values.
pub proof fn lemma_str_pairs_map_at<V>(s: Seq<(String, V)>, i: int)
    requires
        unique_str_keys(s),
        0 <= i < s.len(),
    ensures
        str_pairs_map(s).contains_key(s[i].0@),
        str_pairs_map(s)[s[i].0@] == s[i].1,
{
    let k = s[i].0@;
    assert(exists|j: int| 0 <= j < s.len() && (#[trigger] s[j]).0@ == k);
    let j = choose|j: int| 0 <= j < s.len() && (#[trigger] s[j]).0@ == k;
    assert(j == i);
}

/// A map from strings to values, kept in insertion order.
#[derive(Debug)]
pub struct StrMap<V> {
    entries: Vec<(String, V)>,
}

impl<V> View for StrMap<V> {
    type V = Map<Seq<char>, V>;

    closed spec fn view(&self) -> Map<Seq<char>, V> {
        str_pairs_map(self.entries@)
    }
}

impl<V> StrMap<V> {
    /// No key is held twice.
    #[verifier::type_invariant]
    pub closed spec fn wf(&self) -> bool {
        unique_str_keys(self.entries@)
    }

    /// The pairs in insertion order.
    pub closed spec fn pairs(&self) -> Seq<(String, V)> {
        self.entries@
    }

    /// The pairs describe the map, one per key.
    pub proof fn lemma_pairs(&self)
        requires
            self.wf(),
        ensures
            unique_str_keys(self.pairs()),
            self@ == str_pairs_map(self.pairs()),
            forall|i: int| 0 <= i < self.pairs().len() ==> #[trigger] self@.contains_key(self.pairs()[i].0@) && self@[self.pairs()[i].0@] == self.pairs()[i].1,
            forall|k: Seq<char>| #[trigger] self@.contains_key(k) ==> exists|i: int| 0 <= i < self.pairs().len() && (#[trigger] self.pairs()[i]).0@ == k,
            self@.dom().finite(),
            self@.dom().len() == self.pairs().len(),
    {
        assert forall|i: int| 0 <= i < self.pairs().len() implies #[trigger] self@.contains_key(self.pairs()[i].0@) && self@[self.pairs()[i].0@] == self.pairs()[i].1 by {
            lemma_str_pairs_map_at(self.entries@, i);
        }
        assert forall|k: Seq<char>| #[trigger] self@.contains_key(k) implies exists|i: int| 0 <= i < self.pairs().len() && (#[trigger] self.pairs()[i]).0@ == k by {
            let i = choose|i: int| 0 <= i < self.entries@.len() && (#[trigger] self.entries@[i]).0@ == k;
            assert(self.pairs()[i].0@ == k);
        }
        lemma_dom_len(self.entries@);
    }

    pub fn new() -> (r: Self)
        ensures
            r@ == Map::<Seq<char>, V>::empty(),
            r.pairs().len() == 0,
    {
        let r = StrMap { entries: Vec::new() };
        assert(r@ =~= Map::<Seq<char>, V>::empty());
        r
    }

    fn find(&self, key: &String) -> (r: Option<usize>)
        requires
            self.wf(),
        ensures
            match r {
                Some(i) => i < self.entries@.len() && self.entries@[i as int].0@ == key@,
                None => !self@.contains_key(key@),
            },
    {
        let mut i: usize = 0;
        while i < self.entries.len()
            invariant
                0 <= i <= self.entries@.len(),
                forall|j: int| 0 <= j < i ==> (#[trigger] self.entries@[j]).0@ != key@,
            decreases self.entries@.len() - i,
        {
            if self.entries[i].0 == *key {
                return Some(i);
            }
            i = i + 1;
        }
        None
    }

    /// Number of keys.
    pub fn len(&self) -> (r: usize)
        ensures
            r == self@.dom().len(),
            r == self.pairs().len(),
            self@.dom().finite(),
    {
        proof {
            use_type_invariant(self);
            lemma_dom_len(self.entries@);
        }
        self.entries.len()
    }

    /// Whether no key is mapped.
    pub fn is_empty(&self) -> (r: bool)
        ensures
            r == (self@.dom().len() == 0),
            r == (self@ == Map::<Seq<char>, V>::empty()),
    {
        proof {
            use_type_invariant(self);
            lemma_dom_len(self.entries@);
            if self.entries@.len() == 0 {
                assert(self@ =~= Map::<Seq<char>, V>::empty());
            } else {
                lemma_str_pairs_map_at(self.entries@, 0);
            }
        }
        self.entries.len() == 0
    }

    /// Whether `key` is mapped.
    pub fn contains_key(&self, key: &str) -> (r: bool)
        ensures
            r == self@.contains_key(key@),
    {
        proof {
            use_type_invariant(self);
        }
        let k = key.to_owned();
        match self.find(&k) {
            Some(i) => {
                proof {
                    lemma_str_pairs_map_at(self.entries@, i as int);
                }
                true
            },
            None => false,
        }
    }

    /// The value of `key`.
    pub fn get(&self, key: &str) -> (r: Option<&V>)
        ensures
            match r {
                Some(v) => self@.contains_key(key@) && self@[key@] == *v,
                None => !self@.contains_key(key@),
            },
    {
        proof {
            use_type_invariant(self);
        }
        let k = key.to_owned();
        match self.find(&k) {
            Some(i) => {
                proof {
                    lemma_str_pairs_map_at(self.entries@, i as int);
                }
                Some(&self.entries[i].1)
            },
            None => None,
        }
    }

    /// Map `key` to `v`, replacing any earlier value; a new key goes last.
    pub fn insert(&mut self, key: String, v: V)
        ensures
            final(self)@ == old(self)@.insert(key@, v),
            old(self)@.contains_key(key@) ==> exists|i: int|
                0 <= i < old(self).pairs().len() && (#[trigger] old(self).pairs()[i]).0@ == key@
                    && final(self).pairs() == old(self).pairs().update(i, (key, v)),
            !old(self)@.contains_key(key@) ==> final(self).pairs() == old(self).pairs().push((key, v)),
    {
        proof {
            use_type_invariant(&*self);
        }
        let ghost before = self.entries@;
        let ghost kv = key@;
        let found = self.find(&key);
        let mut entries = Vec::new();
        std::mem::swap(&mut entries, &mut self.entries);
        match found {
            Some(i) => {
                let (_, _) = entries.remove(i);
                entries.insert(i, (key, v));
                proof {
                    assert forall|a: int| 0 <= a < before.len() && a != i implies (#[trigger] entries@[a]) == before[a] by {}
                    assert(entries@[i as int].0@ == kv);
                    assert(entries@ =~= before.update(i as int, entries@[i as int]));
                    assert forall|a: int, b: int| 0 <= a < entries@.len() && 0 <= b < entries@.len() && a != b implies (#[trigger] entries@[a]).0@ != (#[trigger] entries@[b]).0@ by {
                        assert(before[a].0@ != before[b].0@);
                    }
                    lemma_update_map(before, entries@, i as int);
                }
            },
            None => {
                entries.push((key, v));
                proof {
                    assert forall|a: int, b: int| 0 <= a < entries@.len() && 0 <= b < entries@.len() && a != b implies (#[trigger] entries@[a]).0@ != (#[trigger] entries@[b]).0@ by {
                        if a < before.len() && b < before.len() {
                            assert(before[a].0@ != before[b].0@);
                        } else if a < before.len() {
                            lemma_str_pairs_map_at(before, a);
                        } else if b < before.len() {
                            lemma_str_pairs_map_at(before, b);
                        }
                    }
                    lemma_push_map(before, entries@);
                }
            },
        }
        self.entries = entries;
        proof {
            if let Some(i) = found {
                assert(old(self).pairs()[i as int].0@ == key@);
                assert(self.pairs() == old(self).pairs().update(i as int, (key, v)));
            }
        }
    }

    /// Remove `key`, returning its value; the other pairs keep their order.
    pub fn remove(&mut self, key: &str) -> (r: Option<V>)
        ensures
            final(self)@ == old(self)@.remove(key@),
            old(self)@.contains_key(key@) ==> exists|i: int|
                0 <= i < old(self).pairs().len() && (#[trigger] old(self).pairs()[i]).0@ == key@
                    && final(self).pairs() == old(self).pairs().remove(i),
            !old(self)@.contains_key(key@) ==> final(self).pairs() == old(self).pairs(),
            match r {
                Some(v) => old(self)@.contains_key(key@) && old(self)@[key@] == v,
                None => !old(self)@.contains_key(key@),
            },
    {
        proof {
            use_type_invariant(&*self);
        }
        let k = key.to_owned();
        match self.find(&k) {
            Some(i) => {
                let (_, v) = self.remove_at(i);
                Some(v)
            },
            None => {
                assert(old(self)@.remove(key@) =~= old(self)@);
                None
            },
        }
    }

    /// The key of the `i`-th pair.
    pub fn key_at(&self, i: usize) -> (r: &String)
        requires
            i < self.pairs().len(),
        ensures
            *r == self.pairs()[i as int].0,
    {
        &self.entries[i].0
    }

    /// The value of the `i`-th pair.
    pub fn value_at(&self, i: usize) -> (r: &V)
        requires
            i < self.pairs().len(),
        ensures
            *r == self.pairs()[i as int].1,
    {
        &self.entries[i].1
    }

    /// Put `v` in place of the value of the `i`-th pair, returning the
    /// value it held; the order of the pairs is kept.
    pub fn replace_value_at(&mut self, i: usize, v: V) -> (r: V)
        requires
            i < old(self).pairs().len(),
        ensures
            r == old(self).pairs()[i as int].1,
            final(self).pairs() == old(self).pairs().update(i as int, (old(self).pairs()[i as int].0, v)),
            final(self)@ == old(self)@.insert(old(self).pairs()[i as int].0@, v),
    {
        proof {
            use_type_invariant(&*self);
        }
        let ghost before = self.entries@;
        let mut entries = Vec::new();
        std::mem::swap(&mut entries, &mut self.entries);
        let (k, old_v) = entries.remove(i);
        entries.insert(i, (k, v));
        proof {
            assert(entries@ =~= before.update(i as int, (before[i as int].0, v)));
            assert forall|a: int, b: int| 0 <= a < entries@.len() && 0 <= b < entries@.len() && a != b implies (#[trigger] entries@[a]).0@ != (#[trigger] entries@[b]).0@ by {
                assert(before[a].0@ != before[b].0@);
            }
            lemma_update_map(before, entries@, i as int);
        }
        self.entries = entries;
        old_v
    }

    /// Remove the `i`-th pair; the others keep their order.
    pub fn remove_at(&mut self, i: usize) -> (r: (String, V))
        requires
            i < old(self).pairs().len(),
        ensures
            r == old(self).pairs()[i as int],
            final(self).pairs() == old(self).pairs().remove(i as int),
            final(self)@ == old(self)@.remove(r.0@),
            old(self)@.contains_key(r.0@),
            old(self)@[r.0@] == r.1,
    {
        proof {
            use_type_invariant(&*self);
            lemma_str_pairs_map_at(self.entries@, i as int);
        }
        let ghost before = self.entries@;
        let mut entries = Vec::new();
        std::mem::swap(&mut entries, &mut self.entries);
        let r = entries.remove(i);
        proof {
            lemma_remove_map(before, entries@, i as int);
        }
        self.entries = entries;
        r
    }

    /// Keys in insertion order.
    pub fn keys(&self) -> (r: Vec<String>)
        ensures
            r@.len() == self.pairs().len(),
            forall|i: int| 0 <= i < r@.len() ==> #[trigger] r@[i]@ == self.pairs()[i].0@,
    {
        let mut out: Vec<String> = Vec::new();
        let mut i: usize = 0;
        while i < self.entries.len()
            invariant
                0 <= i <= self.entries@.len(),
                out@.len() == i,
                forall|j: int| 0 <= j < i ==> #[trigger] out@[j]@ == self.entries@[j].0@,
            decreases self.entries@.len() - i,
        {
            out.push(self.entries[i].0.clone());
            i = i + 1;
        }
        out
    }
}

/// Leaving out a value that a sequence does not hold leaves it whole.
pub proof fn lemma_filter_keeps_all<A>(s: Seq<A>, x: A)
    requires
        !s.contains(x),
    ensures
        s.filter(|y: A| y != x) == s,
    decreases s.len(),
{
    reveal(Seq::filter);
    if s.len() > 0 {
        assert(!s.drop_last().contains(x)) by {
            if s.drop_last().contains(x) {
                let j = choose|j: int| 0 <= j < s.drop_last().len() && s.drop_last()[j] == x;
                assert(s[j] == x);
            }
        }
        lemma_filter_keeps_all(s.drop_last(), x);
        assert(s[s.len() - 1] != x);
        assert(s.drop_last().push(s.last()) =~= s);
    }
}

/// In a sequence without repeats, removing the element at `i` is leaving
/// out its value.
pub proof fn lemma_remove_is_filter<A>(s: Seq<A>, i: int)
    requires
        0 <= i < s.len(),
        s.no_duplicates(),
    ensures
        s.remove(i) == s.filter(|y: A| y != s[i]),
    decreases s.len(),
{
    reveal(Seq::filter);
    let k = s[i];
    let d = s.drop_last();
    if i == s.len() - 1 {
        assert(!d.contains(k)) by {
            if d.contains(k) {
                let j = choose|j: int| 0 <= j < d.len() && d[j] == k;
                assert(s[j] == s[i]);
            }
        }
        lemma_filter_keeps_all(d, k);
        assert(s.remove(i) =~= d);
    } else {
        assert(d[i] == k);
        assert(d.no_duplicates()) by {
            assert forall|a: int, b: int| 0 <= a < d.len() && 0 <= b < d.len() && a != b implies d[a] != d[b] by {
                assert(s[a] != s[b]);
            }
        }
        lemma_remove_is_filter(d, i);
        assert(s.last() != k);
        assert(s.remove(i) =~= d.remove(i).push(s.last()));
    }
}

/// A set of strings, kept in insertion order.
#[derive(Debug)]
pub struct StrSet {
    items: StrMap<()>,
}

impl View for StrSet {
    type V = Set<Seq<char>>;

    closed spec fn view(&self) -> Set<Seq<char>> {
        self.items@.dom()
    }
}

impl StrSet {
    /// The members in insertion order.
    pub closed spec fn order(&self) -> Seq<Seq<char>> {
        self.items.pairs().map_values(|p: (String, ())| p.0@)
    }

    /// The order lists each member once.
    proof fn lemma_order(&self)
        requires
            self.items.wf(),
        ensures
            self.order().no_duplicates(),
            self.order().to_set() == self@,
            self.order().len() == self@.len(),
    {
        self.items.lemma_pairs();
        let o = self.order();
        let p = self.items.pairs();
        assert forall|a: int, b: int| 0 <= a < o.len() && 0 <= b < o.len() && a != b implies o[a] != o[b] by {
            assert(p[a].0@ != p[b].0@);
        }
        assert forall|k: Seq<char>| o.to_set().contains(k) <==> self@.contains(k) by {
            if self@.contains(k) {
                let i = choose|i: int| 0 <= i < p.len() && (#[trigger] p[i]).0@ == k;
                assert(o[i] == k);
            }
            if o.to_set().contains(k) {
                let i = choose|i: int| 0 <= i < o.len() && o[i] == k;
                assert(self.items@.contains_key(p[i].0@));
            }
        }
        assert(o.to_set() =~= self@);
        o.unique_seq_to_set();
    }

    pub fn new() -> (r: Self)
        ensures
            r@ == Set::<Seq<char>>::empty(),
            r.order() == Seq::<Seq<char>>::empty(),
    {
        let r = StrSet { items: StrMap::new() };
        assert(r@ =~= Set::<Seq<char>>::empty());
        assert(r.order() =~= Seq::<Seq<char>>::empty());
        r
    }

    /// Number of members.
    pub fn len(&self) -> (r: usize)
        ensures
            self@.finite(),
            r == self@.len(),
    {
        self.items.len()
    }

    /// Whether the set has no member.
    pub fn is_empty(&self) -> (r: bool)
        ensures
            r == (self@ == Set::<Seq<char>>::empty()),
            r == (self.order().len() == 0),
    {
        let r = self.items.len() == 0;
        proof {
            use_type_invariant(&self.items);
            self.lemma_order();
            if r {
                self@.lemma_len0_is_empty();
            }
        }
        r
    }

    /// Whether `item` is a member.
    pub fn contains(&self, item: &str) -> (r: bool)
        ensures
            r == self@.contains(item@),
    {
        self.items.contains_key(item)
    }

    /// Add `item`; a new member comes last in the order.
    pub fn insert(&mut self, item: String)
        ensures
            final(self)@ == old(self)@.insert(item@),
            final(self).order() == (if old(self).order().contains(item@) {
                old(self).order()
            } else {
                old(self).order().push(item@)
            }),
    {
        proof {
            use_type_invariant(&self.items);
            self.lemma_order();
        }
        let ghost k = item@;
        self.items.insert(item, ());
        assert(self@ =~= old(self)@.insert(k));
        proof {
            if old(self)@.contains(k) {
                let i = choose|i: int| 0 <= i < old(self).items.pairs().len() && (#[trigger] old(self).items.pairs()[i]).0@ == k
                    && self.items.pairs() == old(self).items.pairs().update(i, self.items.pairs()[i]);
                assert(self.order() =~= old(self).order());
            } else {
                assert(self.order() =~= old(self).order().push(k));
            }
        }
    }

    /// Remove `item`; the other members keep their order.
    pub fn remove(&mut self, item: &str)
        ensures
            final(self)@ == old(self)@.remove(item@),
            final(self).order() == old(self).order().filter(|x: Seq<char>| x != item@),
    {
        proof {
            use_type_invariant(&self.items);
            self.lemma_order();
        }
        let _ = self.items.remove(item);
        assert(self@ =~= old(self)@.remove(item@));
        proof {
            let o = old(self).order();
            if old(self).items@.contains_key(item@) {
                let i = choose|i: int| 0 <= i < old(self).items.pairs().len() && (#[trigger] old(self).items.pairs()[i]).0@ == item@
                    && self.items.pairs() == old(self).items.pairs().remove(i);
                assert(self.order() =~= o.remove(i));
                assert(o[i] == item@);
                lemma_remove_is_filter(o, i);
            } else {
                assert(!o.contains(item@)) by {
                    if o.contains(item@) {
                        assert(o.to_set().contains(item@));
                    }
                }
                lemma_filter_keeps_all(o, item@);
            }
        }
    }

    /// The members, in insertion order.
    pub fn items(&self) -> (r: Vec<String>)
        ensures
            r@.len() == self.order().len(),
            forall|i: int| 0 <= i < r@.len() ==> #[trigger] r@[i]@ == self.order()[i],
            self.order().no_duplicates(),
            self.order().to_set() == self@,
            forall|i: int| 0 <= i < r@.len() ==> self@.contains(#[trigger] r@[i]@),
            forall|k: Seq<char>| #[trigger] self@.contains(k) ==> exists|i: int| 0 <= i < r@.len() && r@[i]@ == k,
            r@.len() == self@.len(),
    {
        proof {
            use_type_invariant(&self.items);
            self.items.lemma_pairs();
            self.lemma_order();
        }
        let r = self.items.keys();
        proof {
            assert forall|k: Seq<char>| #[trigger] self@.contains(k) implies exists|i: int| 0 <= i < r@.len() && r@[i]@ == k by {
                let i = choose|i: int| 0 <= i < self.items.pairs().len() && (#[trigger] self.items.pairs()[i]).0@ == k;
                assert(r@[i]@ == k);
            }
        }
        r
    }
}

impl Clone for StrMap<String> {
    fn clone(&self) -> (r: Self)
        ensures
            r@ == self@,
            r.pairs() == self.pairs(),
    {
        proof {
            use_type_invariant(self);
        }
        let mut entries: Vec<(String, String)> = Vec::new();
        let mut i: usize = 0;
        while i < self.entries.len()
            invariant
                i <= self.entries@.len(),
                entries@ == self.entries@.take(i as int),
            decreases self.entries@.len() - i,
        {
            entries.push((self.entries[i].0.clone(), self.entries[i].1.clone()));
            assert(entries@ =~= self.entries@.take(i + 1));
            i = i + 1;
        }
        assert(entries@ =~= self.entries@);
        StrMap { entries }
    }
}

impl Clone for StrSet {
    fn clone(&self) -> (r: Self)
        ensures
            r@ == self@,
    {
        proof {
            use_type_invariant(&self.items);
        }
        let mut entries: Vec<(String, ())> = Vec::new();
        let mut i: usize = 0;
        while i < self.items.entries.len()
            invariant
                i <= self.items.entries@.len(),
                entries@ == self.items.entries@.take(i as int),
            decreases self.items.entries@.len() - i,
        {
            entries.push((self.items.entries[i].0.clone(), self.items.entries[i].1));
            assert(entries@ =~= self.items.entries@.take(i + 1));
            i = i + 1;
        }
        assert(entries@ =~= self.items.entries@);
        StrSet { items: StrMap { entries } }
    }
}

/// The first pair comes off the front of the map.
pub proof fn lemma_str_pairs_map_skip<V>(t: Seq<(String, V)>)
    requires
        unique_str_keys(t),
        t.len() > 0,
    ensures
        unique_str_keys(t.skip(1)),
        !str_pairs_map(t.skip(1)).contains_key(t[0].0@),
        str_pairs_map(t) == str_pairs_map(t.skip(1)).insert(t[0].0@, t[0].1),
{
    let r = t.skip(1);
    assert forall|a: int, b: int| 0 <= a < r.len() && 0 <= b < r.len() && a != b implies (#[trigger] r[a]).0@ != (#[trigger] r[b]).0@ by {
        assert(r[a] == t[a + 1]);
        assert(r[b] == t[b + 1]);
    }
    if str_pairs_map(r).contains_key(t[0].0@) {
        let j = choose|j: int| 0 <= j < r.len() && (#[trigger] r[j]).0@ == t[0].0@;
        assert(r[j] == t[j + 1]);
    }
    let x = str_pairs_map(t);
    let y = str_pairs_map(r).insert(t[0].0@, t[0].1);
    assert forall|k: Seq<char>| #[trigger] x.contains_key(k) <==> y.contains_key(k) by {
        if x.contains_key(k) {
            let j = choose|j: int| 0 <= j < t.len() && (#[trigger] t[j]).0@ == k;
            if j > 0 {
                assert(r[j - 1] == t[j]);
            }
        }
        if str_pairs_map(r).contains_key(k) {
            let j = choose|j: int| 0 <= j < r.len() && (#[trigger] r[j]).0@ == k;
            assert(r[j] == t[j + 1]);
        }
        if k == t[0].0@ {
            lemma_str_pairs_map_at(t, 0);
        }
    }
    assert forall|k: Seq<char>| #[trigger] x.contains_key(k) implies x[k] == y[k] by {
        let j = choose|j: int| 0 <= j < t.len() && (#[trigger] t[j]).0@ == k;
        lemma_str_pairs_map_at(t, j);
        if j > 0 {
            assert(r[j - 1] == t[j]);
            lemma_str_pairs_map_at(r, j - 1);
        }
    }
    assert(x =~= y);
}

proof fn lemma_dom_len<V>(s: Seq<(String, V)>)
    requires
        unique_str_keys(s),
    ensures
        str_pairs_map(s).dom().finite(),
        str_pairs_map(s).dom().len() == s.len(),
    decreases s.len(),
{
    if s.len() == 0 {
        assert(str_pairs_map(s).dom() =~= Set::<Seq<char>>::empty());
    } else {
        let d = s.drop_last();
        assert forall|a: int, b: int| 0 <= a < d.len() && 0 <= b < d.len() && a != b implies (#[trigger] d[a]).0@ != (#[trigger] d[b]).0@ by {
            assert(s[a].0@ != s[b].0@);
        }
        lemma_dom_len(d);
        let k = s.last().0@;
        assert(str_pairs_map(s).dom() =~= str_pairs_map(d).dom().insert(k)) by {
            assert forall|x: Seq<char>| str_pairs_map(s).dom().contains(x) <==> str_pairs_map(d).dom().contains(x) || x == k by {
                if str_pairs_map(s).dom().contains(x) {
                    let j = choose|j: int| 0 <= j < s.len() && (#[trigger] s[j]).0@ == x;
                    if j < d.len() {
                        assert(d[j].0@ == x);
                    }
                }
                if str_pairs_map(d).dom().contains(x) {
                    let j = choose|j: int| 0 <= j < d.len() && (#[trigger] d[j]).0@ == x;
                    assert(s[j].0@ == x);
                }
                if x == k {
                    assert(s[s.len() - 1].0@ == x);
                }
            }
        }
        assert(!str_pairs_map(d).dom().contains(k)) by {
            if str_pairs_map(d).dom().contains(k) {
                let j = choose|j: int| 0 <= j < d.len() && (#[trigger] d[j]).0@ == k;
                assert(s[j].0@ == s[s.len() - 1].0@);
            }
        }
    }
}

proof fn lemma_update_map<V>(before: Seq<(String, V)>, after: Seq<(String, V)>, i: int)
    requires
        unique_str_keys(before),
        unique_str_keys(after),
        before.len() == after.len(),
        0 <= i < before.len(),
        after[i].0@ == before[i].0@,
        forall|a: int| 0 <= a < before.len() && a != i ==> (#[trigger] after[a]) == before[a],
    ensures
        str_pairs_map(after) == str_pairs_map(before).insert(after[i].0@, after[i].1),
{
    let m = str_pairs_map(before).insert(after[i].0@, after[i].1);
    assert forall|k: Seq<char>| #[trigger] str_pairs_map(after).contains_key(k) <==> m.contains_key(k) by {
        if str_pairs_map(after).contains_key(k) {
            let j = choose|j: int| 0 <= j < after.len() && (#[trigger] after[j]).0@ == k;
            if j != i {
                lemma_str_pairs_map_at(before, j);
            }
        }
        if str_pairs_map(before).contains_key(k) {
            let j = choose|j: int| 0 <= j < before.len() && (#[trigger] before[j]).0@ == k;
            lemma_str_pairs_map_at(after, j);
        }
        if k == after[i].0@ {
            lemma_str_pairs_map_at(after, i);
        }
    }
    assert forall|k: Seq<char>| #[trigger] str_pairs_map(after).contains_key(k) implies str_pairs_map(after)[k] == m[k] by {
        let j = choose|j: int| 0 <= j < after.len() && (#[trigger] after[j]).0@ == k;
        lemma_str_pairs_map_at(after, j);
        if j != i {
            lemma_str_pairs_map_at(before, j);
        }
    }
    assert(str_pairs_map(after) =~= m);
}

proof fn lemma_push_map<V>(before: Seq<(String, V)>, after: Seq<(String, V)>)
    requires
        unique_str_keys(before),
        unique_str_keys(after),
        after.len() == before.len() + 1,
        forall|a: int| 0 <= a < before.len() ==> (#[trigger] after[a]) == before[a],
    ensures
        str_pairs_map(after) == str_pairs_map(before).insert(after.last().0@, after.last().1),
{
    let n = before.len() as int;
    let m = str_pairs_map(before).insert(after[n].0@, after[n].1);
    assert forall|k: Seq<char>| #[trigger] str_pairs_map(after).contains_key(k) <==> m.contains_key(k) by {
        if str_pairs_map(after).contains_key(k) {
            let j = choose|j: int| 0 <= j < after.len() && (#[trigger] after[j]).0@ == k;
            if j != n {
                lemma_str_pairs_map_at(before, j);
            }
        }
        if str_pairs_map(before).contains_key(k) {
            let j = choose|j: int| 0 <= j < before.len() && (#[trigger] before[j]).0@ == k;
            lemma_str_pairs_map_at(after, j);
        }
        if k == after[n].0@ {
            lemma_str_pairs_map_at(after, n);
        }
    }
    assert forall|k: Seq<char>| #[trigger] str_pairs_map(after).contains_key(k) implies str_pairs_map(after)[k] == m[k] by {
        let j = choose|j: int| 0 <= j < after.len() && (#[trigger] after[j]).0@ == k;
        lemma_str_pairs_map_at(after, j);
        if j != n {
            lemma_str_pairs_map_at(before, j);
        }
    }
    assert(str_pairs_map(after) =~= m);
}

proof fn lemma_remove_map<V>(before: Seq<(String, V)>, after: Seq<(String, V)>, i: int)
    requires
        unique_str_keys(before),
        0 <= i < before.len(),
        after == before.remove(i),
    ensures
        unique_str_keys(after),
        str_pairs_map(after) == str_pairs_map(before).remove(before[i].0@),
{
    assert forall|a: int, b: int| 0 <= a < after.len() && 0 <= b < after.len() && a != b implies (#[trigger] after[a]).0@ != (#[trigger] after[b]).0@ by {
        let a2 = if a < i { a } else { a + 1 };
        let b2 = if b < i { b } else { b + 1 };
        assert(after[a] == before[a2]);
        assert(after[b] == before[b2]);
    }
    let m = str_pairs_map(before).remove(before[i].0@);
    assert forall|k: Seq<char>| #[trigger] str_pairs_map(after).contains_key(k) <==> m.contains_key(k) by {
        if str_pairs_map(after).contains_key(k) {
            let j = choose|j: int| 0 <= j < after.len() && (#[trigger] after[j]).0@ == k;
            let j2 = if j < i { j } else { j + 1 };
            assert(after[j] == before[j2]);
            lemma_str_pairs_map_at(before, j2);
        }
        if m.contains_key(k) {
            let j = choose|j: int| 0 <= j < before.len() && (#[trigger] before[j]).0@ == k;
            assert(j != i);
            let j2 = if j < i { j } else { j - 1 };
            assert(after[j2] == before[j]);
            lemma_str_pairs_map_at(after, j2);
        }
    }
    assert forall|k: Seq<char>| #[trigger] str_pairs_map(after).contains_key(k) implies str_pairs_map(after)[k] == m[k] by {
        let j = choose|j: int| 0 <= j < after.len() && (#[trigger] after[j]).0@ == k;
        lemma_str_pairs_map_at(after, j);
        let j2 = if j < i { j } else { j + 1 };
        assert(after[j] == before[j2]);
        lemma_str_pairs_map_at(before, j2);
    }
    assert(str_pairs_map(after) =~= m);
}

} // verus!
