//! A map from string keys to values, stored as a vector of pairs with
//! pairwise-distinct keys and viewed as a `Map<Seq<char>, V>`.

use vstd::prelude::*;
use crate::text::str_eq;

verus! {

/// No two pairs share a key.
pub open spec fn distinct_keys<V>(s: Seq<(String, V)>) -> bool {
    forall|i: int, j: int| #![trigger s[i], s[j]] 0 <= i < j < s.len() ==> s[i].0@ != s[j].0@
}

/// The map denoted by a sequence of key-value pairs; later pairs win.
pub open spec fn map_of<V>(s: Seq<(String, V)>) -> Map<Seq<char>, V>
    decreases s.len(),
{
    if s.len() == 0 {
        Map::empty()
    } else {
        map_of(s.drop_last()).insert(s.last().0@, s.last().1)
    }
}

/// With distinct keys, `map_of` contains exactly the listed pairs.
proof fn lemma_map_of_char<V>(s: Seq<(String, V)>)
    requires
        distinct_keys(s),
    ensures
        forall|k: Seq<char>| #[trigger] map_of(s).contains_key(k) ==> exists|i: int|
            0 <= i < s.len() && s[i].0@ == k,
        forall|i: int| 0 <= i < s.len() ==> map_of(s).contains_key(#[trigger] s[i].0@) && map_of(
            s,
        )[s[i].0@] == s[i].1,
    decreases s.len(),
{
    if s.len() > 0 {
        let pre = s.drop_last();
        assert(distinct_keys(pre)) by {
            assert(forall|i: int| 0 <= i < pre.len() ==> pre[i] == s[i]);
        }
        lemma_map_of_char(pre);
        assert forall|i: int| 0 <= i < s.len() implies map_of(s).contains_key(#[trigger] s[i].0@)
            && map_of(s)[s[i].0@] == s[i].1 by {
            if i < s.len() - 1 {
                assert(pre[i] == s[i]);
                assert(s[i].0@ != s[s.len() - 1].0@);
            }
        }
        assert forall|k: Seq<char>| #[trigger] map_of(s).contains_key(k) implies exists|i: int|
            0 <= i < s.len() && s[i].0@ == k by {
            if k != s.last().0@ {
                assert(map_of(pre).contains_key(k));
                let i = choose|i: int| 0 <= i < pre.len() && pre[i].0@ == k;
                assert(pre[i] == s[i]);
                assert(s[i].0@ == k);
            } else {
                assert(s[s.len() - 1].0@ == k);
            }
        }
    }
}

/// Keys absent from the list are absent from the map.
proof fn lemma_map_of_absent<V>(s: Seq<(String, V)>, k: Seq<char>)
    requires
        forall|i: int| 0 <= i < s.len() ==> (#[trigger] s[i].0@) != k,
    ensures
        !map_of(s).contains_key(k),
    decreases s.len(),
{
    if s.len() > 0 {
        let pre = s.drop_last();
        assert(forall|i: int| 0 <= i < pre.len() ==> pre[i] == s[i]);
        lemma_map_of_absent(pre, k);
    }
}

/// A map from string keys to values.
pub struct StrMap<V> {
    entries: Vec<(String, V)>,
}

impl<V> StrMap<V> {
    /// The abstract map held.
    pub closed spec fn view(&self) -> Map<Seq<char>, V> {
        map_of(self.entries@)
    }

    /// Keys are pairwise distinct.
    pub closed spec fn wf(&self) -> bool {
        distinct_keys(self.entries@)
    }

    /// The number of entries.
    pub open spec fn spec_len(&self) -> nat {
        self.entries_seq().len()
    }

    pub fn new() -> (r: StrMap<V>)
        ensures
            r.wf(),
            r@ == Map::<Seq<char>, V>::empty(),
            r.spec_len() == 0,
    {
        StrMap { entries: Vec::new() }
    }

    fn index_of(&self, k: &str) -> (r: Option<usize>)
        requires
            self.wf(),
        ensures
            r matches Some(i) ==> (i < self.entries@.len() && self.entries@[i as int].0@ == k@),
            r is None ==> forall|i: int|
                0 <= i < self.entries@.len() ==> (#[trigger] self.entries@[i].0@) != k@,
    {
        let n = self.entries.len();
        let mut i: usize = 0;
        while i < n
            invariant
                i <= n,
                n == self.entries@.len(),
                forall|j: int| 0 <= j < i ==> (#[trigger] self.entries@[j].0@) != k@,
            decreases n - i,
        {
            if str_eq(self.entries[i].0.as_str(), k) {
                return Some(i);
            }
            i += 1;
        }
        None
    }

    pub fn contains_key(&self, k: &str) -> (r: bool)
        requires
            self.wf(),
        ensures
            r == self@.contains_key(k@),
    {
        match self.index_of(k) {
            Some(i) => {
                proof {
                    lemma_map_of_char(self.entries@);
                }
                true
            },
            None => {
                proof {
                    lemma_map_of_absent(self.entries@, k@);
                }
                false
            },
        }
    }

    pub fn get(&self, k: &str) -> (r: Option<&V>)
        requires
            self.wf(),
        ensures
            r matches Some(v) ==> (self@.contains_key(k@) && *v == self@[k@]),
            r is None ==> !self@.contains_key(k@),
    {
        match self.index_of(k) {
            Some(i) => {
                proof {
                    lemma_map_of_char(self.entries@);
                }
                Some(&self.entries[i].1)
            },
            None => {
                proof {
                    lemma_map_of_absent(self.entries@, k@);
                }
                None
            },
        }
    }

    pub fn remove(&mut self, k: &str) -> (r: Option<V>)
        requires
            old(self).wf(),
        ensures
            final(self).wf(),
            final(self)@ == old(self)@.remove(k@),
            final(self).spec_len() <= old(self).spec_len(),
            r matches Some(v) ==> (old(self)@.contains_key(k@) && v == old(self)@[k@]),
            r is None ==> !old(self)@.contains_key(k@),
    {
        match self.index_of(k) {
            Some(i) => {
                let ghost s = self.entries@;
                let pair = self.entries.remove(i);
                proof {
                    let t = self.entries@;
                    assert(t == s.remove(i as int));
                    assert(distinct_keys(t)) by {
                        assert forall|a: int, b: int|
                            #![trigger t[a], t[b]]
                            0 <= a < b < t.len() implies t[a].0@ != t[b].0@ by {
                            let a2 = if a < i { a } else { a + 1 };
                            let b2 = if b < i { b } else { b + 1 };
                            assert(t[a] == s[a2] && t[b] == s[b2]);
                        }
                    }
                    lemma_map_of_char(s);
                    lemma_map_of_char(t);
                    assert(map_of(t) =~= map_of(s).remove(k@)) by {
                        assert forall|q: Seq<char>| #[trigger]
                            map_of(t).contains_key(q) implies map_of(s).remove(k@).contains_key(q)
                            && map_of(s).remove(k@)[q] == map_of(t)[q] by {
                            let j = choose|j: int| 0 <= j < t.len() && t[j].0@ == q;
                            let j2 = if j < i { j } else { j + 1 };
                            assert(t[j] == s[j2]);
                            assert(s[j2].0@ != s[i as int].0@);
                            assert(map_of(s)[q] == s[j2].1);
                        }
                        assert forall|q: Seq<char>| #[trigger]
                            map_of(s).remove(k@).contains_key(q) implies map_of(t).contains_key(
                            q,
                        ) by {
                            let j = choose|j: int| 0 <= j < s.len() && s[j].0@ == q;
                            assert(j != i);
                            let j2 = if j < i { j } else { j - 1 };
                            assert(t[j2] == s[j]);
                            assert(map_of(t).contains_key(t[j2].0@));
                        }
                    }
                }
                Some(pair.1)
            },
            None => {
                proof {
                    lemma_map_of_absent(self.entries@, k@);
                    assert(old(self)@.remove(k@) =~= old(self)@);
                }
                None
            },
        }
    }

    pub fn insert(&mut self, k: String, v: V)
        requires
            old(self).wf(),
        ensures
            final(self).wf(),
            final(self)@ == old(self)@.insert(k@, v),
            final(self).spec_len() <= old(self).spec_len() + 1,
    {
        let ghost m0 = self@;
        self.remove(k.as_str());
        let ghost s = self.entries@;
        let ghost kk = k@;
        proof {
            lemma_map_of_char(s);
            assert(!map_of(s).contains_key(kk));
            assert forall|i: int| 0 <= i < s.len() implies (#[trigger] s[i].0@) != kk by {
                if s[i].0@ == kk {
                    assert(map_of(s).contains_key(kk));
                }
            }
        }
        self.entries.push((k, v));
        proof {
            let t = self.entries@;
            assert(t.drop_last() =~= s);
            assert(t.last() == (k, v));
            assert(distinct_keys(t)) by {
                assert forall|a: int, b: int|
                    #![trigger t[a], t[b]]
                    0 <= a < b < t.len() implies t[a].0@ != t[b].0@ by {
                    if b < t.len() - 1 {
                        assert(t[a] == s[a] && t[b] == s[b]);
                    } else {
                        assert(t[a] == s[a]);
                    }
                }
            }
            assert(map_of(t) == map_of(s).insert(kk, v));
            assert(map_of(t) =~= m0.insert(kk, v));
        }
    }

    /// The number of entries held.
    pub fn len(&self) -> (r: usize)
        ensures
            r == self.spec_len(),
    {
        self.entries.len()
    }

    /// A reference to the pair at the given position.
    pub fn pair_at(&self, i: usize) -> (r: &(String, V))
        requires
            i < self.spec_len(),
        ensures
            *r == self.entries_seq()[i as int],
            self.wf() ==> self@.contains_key(r.0@) && self@[r.0@] == r.1,
    {
        proof {
            if self.wf() {
                lemma_map_of_char(self.entries@);
            }
        }
        &self.entries[i]
    }

    /// The sequence of entries backing the map.
    pub closed spec fn entries_seq(&self) -> Seq<(String, V)> {
        self.entries@
    }

    /// The abstract map is exactly the map denoted by the entries.
    pub proof fn lemma_view_is_map_of(&self)
        ensures
            self@ == map_of(self.entries_seq()),
    {
    }
}

} // verus!
