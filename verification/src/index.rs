//! The in-memory index: a mapping from live key to the byte offset of
//! that key's latest `Put` record in the log.
//!
//! The index is kept as a vector of `(key, offset)` pairs with pairwise
//! distinct keys; its mathematical value is the map those pairs spell out.
//! The pair order matters only to compaction, which walks the entries and
//! rewrites one record per pair.

use vstd::prelude::*;
use vstd::pervasive::VecAdditionalExecFns;

verus! {

/// The map an association list spells out; later pairs win, though the
/// index never holds two pairs with one key.
pub open spec fn assoc_map(s: Seq<(Seq<char>, u64)>) -> Map<Seq<char>, u64>
    decreases s.len(),
{
    if s.len() == 0 {
        Map::empty()
    } else {
        assoc_map(s.drop_last()).insert(s.last().0, s.last().1)
    }
}

/// A key that appears in no pair of `s` is not in the map `s` spells out.
pub proof fn lemma_assoc_absent(s: Seq<(Seq<char>, u64)>, k: Seq<char>)
    requires
        forall|j: int| 0 <= j < s.len() ==> (#[trigger] s[j]).0 != k,
    ensures
        !assoc_map(s).contains_key(k),
    decreases s.len(),
{
    if s.len() > 0 {
        lemma_assoc_absent(s.drop_last(), k);
    }
}

/// With pairwise distinct keys, each pair of `s` is bound in the map `s`
/// spells out, and every key of the map comes from some pair.
pub proof fn lemma_assoc_facts(s: Seq<(Seq<char>, u64)>)
    requires
        forall|i: int, j: int|
            0 <= i < j < s.len() ==> (#[trigger] s[i]).0 != (#[trigger] s[j]).0,
    ensures
        forall|i: int| 0 <= i < s.len() ==> assoc_map(s).contains_key((#[trigger] s[i]).0)
            && assoc_map(s)[s[i].0] == s[i].1,
        forall|k: Seq<char>| #[trigger] assoc_map(s).contains_key(k) ==> exists|i: int|
            0 <= i < s.len() && (#[trigger] s[i]).0 == k,
    decreases s.len(),
{
    if s.len() > 0 {
        let head = s.drop_last();
        lemma_assoc_facts(head);
        assert forall|i: int| 0 <= i < s.len() implies assoc_map(s).contains_key(
            (#[trigger] s[i]).0,
        ) && assoc_map(s)[s[i].0] == s[i].1 by {
            if i < s.len() - 1 {
                assert(head[i] == s[i]);
                assert(s[i].0 != s[s.len() - 1].0);
            }
        }
        assert forall|k: Seq<char>| #[trigger] assoc_map(s).contains_key(k) implies exists|i: int|
            0 <= i < s.len() && (#[trigger] s[i]).0 == k by {
            if k == s.last().0 {
                assert(s[s.len() - 1].0 == k);
            } else {
                assert(assoc_map(head).contains_key(k));
                let i = choose|i: int| 0 <= i < head.len() && (#[trigger] head[i]).0 == k;
                assert(head[i] == s[i]);
                assert(s[i].0 == k);
            }
        }
    }
}

/// The in-memory index.
pub struct Index {
    entries: Vec<(String, u64)>,
}

impl View for Index {
    type V = Map<Seq<char>, u64>;

    /// The key-to-offset map the entries spell out.
    closed spec fn view(&self) -> Map<Seq<char>, u64> {
        assoc_map(self.entries_view())
    }
}

impl Index {
    /// The entries in order, as character sequences and offsets.
    pub closed spec fn entries_view(&self) -> Seq<(Seq<char>, u64)> {
        self.entries@.map_values(|p: (String, u64)| (p.0@, p.1))
    }

    /// Keys are pairwise distinct.
    pub open spec fn wf(&self) -> bool {
        forall|i: int, j: int|
            0 <= i < j < self.entries_view().len() ==> (#[trigger] self.entries_view()[i]).0 != (
            #[trigger] self.entries_view()[j]).0
    }

    /// Each entry is bound in the map, and every key of the map comes from
    /// an entry.
    pub proof fn lemma_entry_facts(&self)
        requires
            self.wf(),
        ensures
            forall|i: int| 0 <= i < self.entries_view().len() ==> self@.contains_key(
                (#[trigger] self.entries_view()[i]).0,
            ) && self@[self.entries_view()[i].0] == self.entries_view()[i].1,
            forall|k: Seq<char>| #[trigger] self@.contains_key(k) ==> exists|i: int|
                0 <= i < self.entries_view().len() && (#[trigger] self.entries_view()[i]).0 == k,
    {
        lemma_assoc_facts(self.entries_view());
    }

    /// An empty index.
    pub fn new() -> (r: Index)
        ensures
            r.wf(),
            r@ == Map::<Seq<char>, u64>::empty(),
            r.entries_view() == Seq::<(Seq<char>, u64)>::empty(),
    {
        let r = Index { entries: Vec::new() };
        proof {
            assert(r.entries_view() =~= Seq::<(Seq<char>, u64)>::empty());
        }
        r
    }

    /// The number of live keys.
    pub fn entry_count(&self) -> (r: usize)
        ensures
            r == self.entries_view().len(),
    {
        self.entries.len()
    }

    /// The offset of the entry at position `j`.
    pub fn off_at(&self, j: usize) -> (r: u64)
        requires
            j < self.entries_view().len(),
        ensures
            r == self.entries_view()[j as int].1,
    {
        self.entries[j].1
    }

    /// Looks a key up.
    pub fn get(&self, key: &String) -> (r: Option<u64>)
        requires
            self.wf(),
        ensures
            r == if self@.contains_key(key@) {
                Some(self@[key@])
            } else {
                Option::<u64>::None
            },
    {
        proof {
            self.lemma_entry_facts();
        }
        let n = self.entries.len();
        let mut i: usize = 0;
        while i < n
            invariant
                self.wf(),
                n == self.entries_view().len(),
                0 <= i <= n,
                forall|j: int| 0 <= j < i ==> (#[trigger] self.entries_view()[j]).0 != key@,
                forall|j: int| 0 <= j < self.entries_view().len() ==> self@.contains_key(
                    (#[trigger] self.entries_view()[j]).0,
                ) && self@[self.entries_view()[j].0] == self.entries_view()[j].1,
                forall|j: int| 0 <= j < self.entries_view().len()
                    ==> #[trigger] self.entries_view()[j] == (self.entries@[j].0@,
                self.entries@[j].1),
            decreases n - i,
        {
            if self.entries[i].0 == *key {
                proof {
                    assert(self.entries_view()[i as int] == (self.entries@[i as int].0@,
                    self.entries@[i as int].1));
                }
                return Some(self.entries[i].1);
            }
            i = i + 1;
        }
        proof {
            lemma_assoc_absent(self.entries_view(), key@);
        }
        None
    }

    /// True when the key is live.
    pub fn contains(&self, key: &String) -> (r: bool)
        requires
            self.wf(),
        ensures
            r == self@.contains_key(key@),
    {
        self.get(key).is_some()
    }

    /// Binds `key` to `off`, overwriting any previous binding.
    pub fn insert(&mut self, key: String, off: u64)
        requires
            old(self).wf(),
        ensures
            final(self).wf(),
            final(self)@ == old(self)@.insert(key@, off),
    {
        let n = self.entries.len();
        let mut i: usize = 0;
        while i < n
            invariant
                self == old(self),
                self.wf(),
                n == self.entries_view().len(),
                0 <= i <= n,
                forall|j: int| 0 <= j < i ==> (#[trigger] self.entries_view()[j]).0 != key@,
                forall|j: int| 0 <= j < self.entries_view().len()
                    ==> #[trigger] self.entries_view()[j] == (self.entries@[j].0@,
                self.entries@[j].1),
            decreases n - i,
        {
            if self.entries[i].0 == *(&key) {
                let ghost prior = self.entries_view();
                assert(prior[i as int].0 == key@);
                self.entries.set(i, (key, off));
                proof {
                    assert(self.entries_view() =~= prior.update(i as int, (prior[i as int].0, off)));
                    lemma_assoc_update(prior, i as int, off);
                    assert(self.wf()) by {
                        assert(forall|j: int| 0 <= j < prior.len()
                            ==> #[trigger] self.entries_view()[j] == prior.update(
                            i as int,
                            (prior[i as int].0, off),
                        )[j]);
                    }
                    assert(self@ =~= old(self)@.insert(key@, off));
                }
                return ;
            }
            i = i + 1;
        }
        let ghost prior = self.entries_view();
        self.entries.push((key, off));
        proof {
            assert(self.entries_view() =~= prior.push((key@, off)));
            assert(self.entries_view().drop_last() =~= prior);
            lemma_assoc_absent(prior, key@);
            assert(self@ =~= old(self)@.insert(key@, off));
        }
    }

    /// Appends an entry whose key is not yet live.  Used by compaction,
    /// which needs the entry order to match the records it writes.
    pub fn push_fresh(&mut self, key: String, off: u64)
        requires
            old(self).wf(),
            !old(self)@.contains_key(key@),
        ensures
            final(self).wf(),
            final(self)@ == old(self)@.insert(key@, off),
            final(self).entries_view() == old(self).entries_view().push((key@, off)),
    {
        proof {
            self.lemma_entry_facts();
        }
        let ghost prior = self.entries_view();
        self.entries.push((key, off));
        proof {
            assert(self.entries_view() =~= prior.push((key@, off)));
            assert(self.entries_view().drop_last() =~= prior);
            assert(self@ =~= old(self)@.insert(key@, off));
        }
    }

    /// Unbinds a key; reports whether it was live.
    pub fn remove(&mut self, key: &String) -> (r: bool)
        requires
            old(self).wf(),
        ensures
            final(self).wf(),
            final(self)@ == old(self)@.remove(key@),
            r == old(self)@.contains_key(key@),
    {
        proof {
            self.lemma_entry_facts();
        }
        let n = self.entries.len();
        let mut i: usize = 0;
        while i < n
            invariant
                old(self) == self,
                self.wf(),
                n == self.entries_view().len(),
                0 <= i <= n,
                forall|j: int| 0 <= j < i ==> (#[trigger] self.entries_view()[j]).0 != key@,
                forall|j: int| 0 <= j < self.entries_view().len() ==> self@.contains_key(
                    (#[trigger] self.entries_view()[j]).0,
                ),
                forall|j: int| 0 <= j < self.entries_view().len()
                    ==> #[trigger] self.entries_view()[j] == (self.entries@[j].0@,
                self.entries@[j].1),
            decreases n - i,
        {
            if self.entries[i].0 == *key {
                let ghost prior = self.entries_view();
                assert(prior[i as int].0 == key@);
                self.entries.remove(i);
                proof {
                    assert(self.entries_view() =~= prior.remove(i as int));
                    lemma_assoc_remove(prior, i as int);
                    assert(self.wf()) by {
                        assert(forall|j: int| 0 <= j < prior.len() - 1
                            ==> #[trigger] self.entries_view()[j] == prior.remove(i as int)[j]);
                    }
                    assert(self@ =~= old(self)@.remove(key@));
                }
                return true;
            }
            i = i + 1;
        }
        proof {
            lemma_assoc_absent(self.entries_view(), key@);
            assert(self@ =~= old(self)@.remove(key@));
        }
        false
    }
}

/// Overwriting the offset of the pair at `i` updates that key's binding
/// and no other.
proof fn lemma_assoc_update(s: Seq<(Seq<char>, u64)>, i: int, off: u64)
    requires
        0 <= i < s.len(),
        forall|p: int, q: int|
            0 <= p < q < s.len() ==> (#[trigger] s[p]).0 != (#[trigger] s[q]).0,
    ensures
        assoc_map(s.update(i, (s[i].0, off))) == assoc_map(s).insert(s[i].0, off),
    decreases s.len(),
{
    let s2 = s.update(i, (s[i].0, off));
    if i == s.len() - 1 {
        assert(s2.drop_last() =~= s.drop_last());
        assert(s2.last() == (s[i].0, off));
        assert(assoc_map(s2) =~= assoc_map(s).insert(s[i].0, off));
    } else {
        assert(s2.drop_last() =~= s.drop_last().update(i, (s[i].0, off)));
        assert(s.drop_last()[i] == s[i]);
        lemma_assoc_update(s.drop_last(), i, off);
        assert(s2.last() == s.last());
        assert(s[i].0 != s.last().0);
        assert(assoc_map(s2) =~= assoc_map(s).insert(s[i].0, off));
    }
}

/// Removing the pair at `i` unbinds that key and no other.
proof fn lemma_assoc_remove(s: Seq<(Seq<char>, u64)>, i: int)
    requires
        0 <= i < s.len(),
        forall|p: int, q: int|
            0 <= p < q < s.len() ==> (#[trigger] s[p]).0 != (#[trigger] s[q]).0,
    ensures
        assoc_map(s.remove(i)) == assoc_map(s).remove(s[i].0),
    decreases s.len(),
{
    let s2 = s.remove(i);
    if i == s.len() - 1 {
        assert(s2 =~= s.drop_last());
        assert forall|j: int| 0 <= j < s.drop_last().len() implies (#[trigger] s.drop_last()[j]).0
            != s[i].0 by {
            assert(s.drop_last()[j] == s[j]);
        }
        lemma_assoc_absent(s.drop_last(), s[i].0);
        assert(assoc_map(s2) =~= assoc_map(s).remove(s[i].0));
    } else {
        assert(s2.drop_last() =~= s.drop_last().remove(i));
        assert(s.drop_last()[i] == s[i]);
        lemma_assoc_remove(s.drop_last(), i);
        assert(s2.last() == s.last());
        assert(s[i].0 != s.last().0);
        assert(assoc_map(s2) =~= assoc_map(s).remove(s[i].0));
    }
}

} // verus!
