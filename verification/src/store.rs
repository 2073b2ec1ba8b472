//! The in-memory key-value structure: a mapping from string keys to opaque
//! byte values, represented as a vector of pairs with pairwise-distinct keys
//! and viewed as a `Map<Seq<char>, Seq<u8>>`.

use vstd::map::*;
use vstd::prelude::*;

verus! {

/// A mapping from UTF-8 string keys to opaque byte values.  Keys are unique;
/// iteration order carries no meaning.
pub struct KvStore {
    entries: Vec<(String, Vec<u8>)>,
}

/// The sequence of (key characters, value bytes) pairs that a vector of
/// entries stands for.
pub open spec fn pairs_of(entries: Seq<(String, Vec<u8>)>) -> Seq<(Seq<char>, Seq<u8>)> {
    entries.map_values(|p: (String, Vec<u8>)| (p.0@, p.1@))
}

/// Keys of a pair sequence are pairwise distinct.
pub open spec fn unique_keys(s: Seq<(Seq<char>, Seq<u8>)>) -> bool {
    forall|i: int, j: int| 0 <= i < j < s.len() ==> s[i].0 != s[j].0
}

/// The mapping that a pair sequence stands for; a later pair overrides an
/// earlier one with the same key.
pub open spec fn map_of(s: Seq<(Seq<char>, Seq<u8>)>) -> Map<Seq<char>, Seq<u8>>
    decreases s.len(),
{
    if s.len() == 0 {
        Map::empty()
    } else {
        map_of(s.drop_last()).insert(s.last().0, s.last().1)
    }
}

/// A key is in the mapping exactly when some pair carries it.
pub proof fn lemma_map_of_contains(s: Seq<(Seq<char>, Seq<u8>)>, k: Seq<char>)
    ensures
        map_of(s).contains_key(k) <==> exists|i: int| 0 <= i < s.len() && s[i].0 == k,
    decreases s.len(),
{
    if s.len() > 0 {
        lemma_map_of_contains(s.drop_last(), k);
        if s.last().0 == k {
            assert(s[s.len() - 1].0 == k);
        } else {
            if exists|i: int| 0 <= i < s.len() && s[i].0 == k {
                let i = choose|i: int| 0 <= i < s.len() && s[i].0 == k;
                assert(s.drop_last()[i] == s[i]);
            }
        }
    }
}

/// Under unique keys, the mapping sends each pair's key to that pair's value.
pub proof fn lemma_map_of_index(s: Seq<(Seq<char>, Seq<u8>)>, i: int)
    requires
        unique_keys(s),
        0 <= i < s.len(),
    ensures
        map_of(s).contains_key(s[i].0),
        map_of(s)[s[i].0] == s[i].1,
    decreases s.len(),
{
    if i < s.len() - 1 {
        assert(unique_keys(s.drop_last())) by {
            assert forall|a: int, b: int|
                0 <= a < b < s.drop_last().len() implies s.drop_last()[a].0
                != s.drop_last()[b].0 by {
                assert(s.drop_last()[a] == s[a]);
                assert(s.drop_last()[b] == s[b]);
            }
        }
        assert(s.drop_last()[i] == s[i]);
        lemma_map_of_index(s.drop_last(), i);
        assert(s[i].0 != s.last().0);
    }
}

/// Uniqueness survives removing a pair, and no remaining pair carries the
/// removed pair's key.
pub proof fn lemma_unique_remove(s: Seq<(Seq<char>, Seq<u8>)>, i: int)
    requires
        unique_keys(s),
        0 <= i < s.len(),
    ensures
        unique_keys(s.remove(i)),
        forall|j: int| 0 <= j < s.remove(i).len() ==> s.remove(i)[j].0 != s[i].0,
{
    let t = s.remove(i);
    assert forall|a: int, b: int| 0 <= a < b < t.len() implies t[a].0 != t[b].0 by {
        assert(t[a] == if a < i {
            s[a]
        } else {
            s[a + 1]
        });
        assert(t[b] == if b < i {
            s[b]
        } else {
            s[b + 1]
        });
    }
    assert forall|j: int| 0 <= j < t.len() implies t[j].0 != s[i].0 by {
        assert(t[j] == if j < i {
            s[j]
        } else {
            s[j + 1]
        });
    }
}

/// Appending a pair inserts its key into the mapping.
pub proof fn lemma_map_of_push(s: Seq<(Seq<char>, Seq<u8>)>, p: (Seq<char>, Seq<u8>))
    ensures
        map_of(s.push(p)) == map_of(s).insert(p.0, p.1),
{
    assert(s.push(p).drop_last() =~= s);
    assert(s.push(p).last() == p);
}

/// Under unique keys, removing the pair at an index removes its key from the
/// mapping.
pub proof fn lemma_map_of_remove(s: Seq<(Seq<char>, Seq<u8>)>, i: int)
    requires
        unique_keys(s),
        0 <= i < s.len(),
    ensures
        map_of(s.remove(i)) == map_of(s).remove(s[i].0),
    decreases s.len(),
{
    let k = s[i].0;
    if i == s.len() - 1 {
        assert(s.remove(i) =~= s.drop_last());
        lemma_map_of_contains(s.drop_last(), k);
        assert forall|j: int| 0 <= j < s.drop_last().len() implies s.drop_last()[j].0 != k by {
            assert(s.drop_last()[j] == s[j]);
        }
        assert(!map_of(s.drop_last()).contains_key(k));
        assert(map_of(s.drop_last()) =~= map_of(s.drop_last()).insert(s.last().0,
            s.last().1).remove(k));
    } else {
        let t = s.drop_last();
        let p = s.last();
        assert(unique_keys(t)) by {
            assert forall|a: int, b: int| 0 <= a < b < t.len() implies t[a].0 != t[b].0 by {
                assert(t[a] == s[a]);
                assert(t[b] == s[b]);
            }
        }
        assert(t[i] == s[i]);
        lemma_map_of_remove(t, i);
        assert(s.remove(i).drop_last() =~= t.remove(i));
        assert(s.remove(i).last() == p);
        assert(map_of(s.remove(i)) == map_of(t.remove(i)).insert(p.0, p.1));
        assert(p.0 != k);
        assert(map_of(t).remove(k).insert(p.0, p.1) =~= map_of(t).insert(p.0, p.1).remove(k));
    }
}

impl View for KvStore {
    type V = Map<Seq<char>, Seq<u8>>;

    open spec fn view(&self) -> Map<Seq<char>, Seq<u8>> {
        map_of(self.pairs())
    }
}

impl KvStore {
    /// The pair sequence the store holds, in its internal order.
    pub closed spec fn pairs(&self) -> Seq<(Seq<char>, Seq<u8>)> {
        pairs_of(self.entries@)
    }

    /// Well-formedness: keys are pairwise distinct.
    pub open spec fn wf(&self) -> bool {
        unique_keys(self.pairs())
    }

    /// An empty store.
    pub fn new() -> (r: KvStore)
        ensures
            r.wf(),
            r.pairs() == Seq::<(Seq<char>, Seq<u8>)>::empty(),
            r@ == Map::<Seq<char>, Seq<u8>>::empty(),
    {
        let r = KvStore { entries: Vec::new() };
        proof {
            assert(r.pairs() =~= Seq::<(Seq<char>, Seq<u8>)>::empty());
        }
        r
    }

    /// Wrap a vector of entries whose keys are already known to be distinct.
    pub fn from_entries(entries: Vec<(String, Vec<u8>)>) -> (r: KvStore)
        requires
            unique_keys(pairs_of(entries@)),
        ensures
            r.wf(),
            r.pairs() == pairs_of(entries@),
    {
        KvStore { entries }
    }

    /// How many keys the store holds.
    pub fn len(&self) -> (n: usize)
        ensures
            n == self.pairs().len(),
    {
        self.entries.len()
    }

    /// The index of the pair carrying `key`, if any.
    fn find(&self, key: &String) -> (r: Option<usize>)
        ensures
            match r {
                Some(i) => i < self.pairs().len() && self.pairs()[i as int].0 == key@,
                None => forall|i: int| 0 <= i < self.pairs().len() ==> self.pairs()[i].0 != key@,
            },
    {
        let n = self.entries.len();
        let mut i: usize = 0;
        while i < n
            invariant
                n == self.entries.len(),
                i <= n,
                forall|j: int| 0 <= j < i ==> self.pairs()[j].0 != key@,
            decreases n - i,
        {
            if self.entries[i].0 == *key {
                return Some(i);
            }
            i += 1;
        }
        None
    }

    /// Look the key up; `Some` exactly when the mapping contains it.
    pub fn get(&self, key: &String) -> (r: Option<&Vec<u8>>)
        requires
            self.wf(),
        ensures
            match r {
                Some(v) => self@.contains_key(key@) && v@ == self@[key@],
                None => !self@.contains_key(key@),
            },
    {
        match self.find(key) {
            Some(i) => {
                proof {
                    lemma_map_of_index(self.pairs(), i as int);
                }
                Some(&self.entries[i].1)
            },
            None => {
                proof {
                    lemma_map_of_contains(self.pairs(), key@);
                }
                None
            },
        }
    }

    /// Insert or overwrite: afterwards the mapping sends `key` to `value`,
    /// and nothing else changed.
    pub fn set(&mut self, key: String, value: Vec<u8>)
        requires
            old(self).wf(),
        ensures
            final(self).wf(),
            final(self)@ == old(self)@.insert(key@, value@),
    {
        let ghost old_pairs = self.pairs();
        let ghost kv = (key@, value@);
        match self.find(&key) {
            Some(i) => {
                proof {
                    lemma_map_of_remove(old_pairs, i as int);
                    lemma_unique_remove(old_pairs, i as int);
                }
                self.entries.remove(i);
                proof {
                    assert(self.pairs() =~= old_pairs.remove(i as int));
                }
                let ghost mid_pairs = self.pairs();
                self.entries.push((key, value));
                proof {
                    assert(self.pairs() =~= mid_pairs.push(kv));
                    lemma_map_of_push(mid_pairs, kv);
                    assert(map_of(old_pairs).remove(kv.0).insert(kv.0, kv.1) =~= map_of(
                        old_pairs,
                    ).insert(kv.0, kv.1));
                    assert forall|a: int, b: int|
                        0 <= a < b < self.pairs().len() implies self.pairs()[a].0
                        != self.pairs()[b].0 by {
                        if b < mid_pairs.len() {
                            assert(self.pairs()[a] == mid_pairs[a]);
                            assert(self.pairs()[b] == mid_pairs[b]);
                        } else {
                            assert(self.pairs()[b] == kv);
                            if a < mid_pairs.len() {
                                assert(self.pairs()[a] == mid_pairs[a]);
                                assert(mid_pairs[a].0 != old_pairs[i as int].0);
                            }
                        }
                    }
                }
            },
            None => {
                self.entries.push((key, value));
                proof {
                    assert(self.pairs() =~= old_pairs.push(kv));
                    lemma_map_of_push(old_pairs, kv);
                    assert forall|a: int, b: int|
                        0 <= a < b < self.pairs().len() implies self.pairs()[a].0
                        != self.pairs()[b].0 by {
                        if b < old_pairs.len() {
                            assert(self.pairs()[a] == old_pairs[a]);
                            assert(self.pairs()[b] == old_pairs[b]);
                        } else {
                            assert(self.pairs()[b] == kv);
                            if a < old_pairs.len() {
                                assert(self.pairs()[a] == old_pairs[a]);
                            }
                        }
                    }
                }
            },
        }
    }

    /// Remove the key if present; report whether anything was removed.  A
    /// miss leaves the store untouched, pair for pair.
    pub fn delete(&mut self, key: &String) -> (removed: bool)
        requires
            old(self).wf(),
        ensures
            final(self).wf(),
            removed == old(self)@.contains_key(key@),
            final(self)@ == old(self)@.remove(key@),
            !removed ==> final(self).pairs() == old(self).pairs(),
    {
        let ghost old_pairs = self.pairs();
        match self.find(key) {
            Some(i) => {
                proof {
                    lemma_map_of_index(old_pairs, i as int);
                    lemma_map_of_remove(old_pairs, i as int);
                    lemma_unique_remove(old_pairs, i as int);
                }
                self.entries.remove(i);
                proof {
                    assert(self.pairs() =~= old_pairs.remove(i as int));
                }
                true
            },
            None => {
                proof {
                    lemma_map_of_contains(old_pairs, key@);
                    assert(map_of(old_pairs).remove(key@) =~= map_of(old_pairs));
                }
                false
            },
        }
    }

    /// Drop every entry.
    pub fn clear(&mut self)
        ensures
            final(self).wf(),
            final(self).pairs() == Seq::<(Seq<char>, Seq<u8>)>::empty(),
            final(self)@ == Map::<Seq<char>, Seq<u8>>::empty(),
    {
        self.entries.clear();
        proof {
            assert(self.pairs() =~= Seq::<(Seq<char>, Seq<u8>)>::empty());
        }
    }

    /// Every key, in the store's internal order.
    pub fn keys(&self) -> (r: Vec<String>)
        ensures
            r@.len() == self.pairs().len(),
            forall|i: int| 0 <= i < r@.len() ==> r@[i]@ == self.pairs()[i].0,
    {
        let n = self.entries.len();
        let mut r: Vec<String> = Vec::new();
        let mut i: usize = 0;
        while i < n
            invariant
                n == self.entries.len(),
                i <= n,
                r@.len() == i,
                forall|j: int| 0 <= j < i ==> r@[j]@ == self.pairs()[j].0,
            decreases n - i,
        {
            r.push(self.entries[i].0.clone());
            i += 1;
        }
        r
    }

    /// Borrow the entry at an index (key and value).
    pub fn entry_at(&self, i: usize) -> (r: (&String, &Vec<u8>))
        requires
            i < self.pairs().len(),
        ensures
            r.0@ == self.pairs()[i as int].0,
            r.1@ == self.pairs()[i as int].1,
    {
        (&self.entries[i].0, &self.entries[i].1)
    }
}

} // verus!
