//! The in-memory index: each live key mapped to the position of the newest
//! `Set` record for it.
//!
//! The index is a flat list of `(key, position)` pairs with pairwise
//! distinct keys; its mathematical content is the finite map built from
//! those pairs.

use vstd::prelude::*;

verus! {

/// Where one record lies: the segment that holds it, the byte offset of its
/// first byte, and its byte length.
#[derive(Debug, Clone, Copy, PartialEq, Eq, Structural)]
pub struct CommandPosition {
    /// The id of the segment that holds the record.
    pub log_number: u64,
    /// The offset of the record's first byte within that segment.
    pub offset: u64,
    /// The byte length of the record.
    pub bytes: u64,
}

/// The map described by a sequence of key/position pairs: later pairs win.
pub open spec fn seq_to_map(s: Seq<(Seq<char>, CommandPosition)>) -> Map<
    Seq<char>,
    CommandPosition,
>
    decreases s.len(),
{
    if s.len() == 0 {
        Map::empty()
    } else {
        seq_to_map(s.drop_last()).insert(s.last().0, s.last().1)
    }
}

/// Whether the keys of the pairs are pairwise distinct.
pub open spec fn distinct_keys(s: Seq<(Seq<char>, CommandPosition)>) -> bool {
    forall|i: int, j: int|
        0 <= i < j < s.len() ==> (#[trigger] s[i]).0 != (#[trigger] s[j]).0
}

/// A key is in the map exactly when some pair carries it.
pub proof fn lemma_seq_to_map_domain(s: Seq<(Seq<char>, CommandPosition)>, k: Seq<char>)
    ensures
        seq_to_map(s).contains_key(k) <==> exists|i: int| 0 <= i < s.len() && (#[trigger] s[i]).0
            == k,
    decreases s.len(),
{
    if s.len() > 0 {
        lemma_seq_to_map_domain(s.drop_last(), k);
        if seq_to_map(s).contains_key(k) {
            if s.last().0 != k {
                let i = choose|i: int| 0 <= i < s.drop_last().len() && (#[trigger] s.drop_last()[i]).0
                    == k;
                assert((s[i]).0 == k);
            }
        }
        if exists|i: int| 0 <= i < s.len() && (#[trigger] s[i]).0 == k {
            let i = choose|i: int| 0 <= i < s.len() && (#[trigger] s[i]).0 == k;
            if i < s.len() - 1 {
                assert((s.drop_last()[i]).0 == k);
            }
        }
    }
}

/// With distinct keys, the pair that carries a key gives its map value.
pub proof fn lemma_seq_to_map_index(s: Seq<(Seq<char>, CommandPosition)>, i: int)
    requires
        distinct_keys(s),
        0 <= i < s.len(),
    ensures
        seq_to_map(s).contains_key(s[i].0),
        seq_to_map(s)[s[i].0] == s[i].1,
    decreases s.len(),
{
    lemma_seq_to_map_domain(s, s[i].0);
    if i < s.len() - 1 {
        assert(forall|x: int, y: int|
            0 <= x < y < s.drop_last().len() ==> (#[trigger] s.drop_last()[x]).0
                != (#[trigger] s.drop_last()[y]).0);
        lemma_seq_to_map_index(s.drop_last(), i);
        assert(s.last().0 != s[i].0);
    }
}

/// Updating the pair at `i` with the same key updates the map at that key.
pub proof fn lemma_seq_to_map_update(
    s: Seq<(Seq<char>, CommandPosition)>,
    i: int,
    p: CommandPosition,
)
    requires
        distinct_keys(s),
        0 <= i < s.len(),
    ensures
        seq_to_map(s.update(i, (s[i].0, p))) == seq_to_map(s).insert(s[i].0, p),
    decreases s.len(),
{
    let s2 = s.update(i, (s[i].0, p));
    if i == s.len() - 1 {
        assert(s2.drop_last() =~= s.drop_last());
        assert(seq_to_map(s2) =~= seq_to_map(s).insert(s[i].0, p));
    } else {
        assert(forall|x: int, y: int|
            0 <= x < y < s.drop_last().len() ==> (#[trigger] s.drop_last()[x]).0
                != (#[trigger] s.drop_last()[y]).0);
        assert(s2.drop_last() =~= s.drop_last().update(i, (s[i].0, p)));
        lemma_seq_to_map_update(s.drop_last(), i, p);
        assert(s.last().0 != s[i].0);
        assert(seq_to_map(s2) =~= seq_to_map(s).insert(s[i].0, p));
    }
}

/// Removing the pair at `i` removes its key from the map.
pub proof fn lemma_seq_to_map_remove(s: Seq<(Seq<char>, CommandPosition)>, i: int)
    requires
        distinct_keys(s),
        0 <= i < s.len(),
    ensures
        seq_to_map(s.remove(i)) == seq_to_map(s).remove(s[i].0),
    decreases s.len(),
{
    let s2 = s.remove(i);
    if i == s.len() - 1 {
        assert(s2 =~= s.drop_last());
        lemma_seq_to_map_domain(s.drop_last(), s[i].0);
        assert(seq_to_map(s2) =~= seq_to_map(s).remove(s[i].0));
    } else {
        assert(forall|x: int, y: int|
            0 <= x < y < s.drop_last().len() ==> (#[trigger] s.drop_last()[x]).0
                != (#[trigger] s.drop_last()[y]).0);
        assert(s2.drop_last() =~= s.drop_last().remove(i));
        lemma_seq_to_map_remove(s.drop_last(), i);
        assert(s.last().0 != s[i].0);
        assert(seq_to_map(s2) =~= seq_to_map(s).remove(s[i].0));
    }
}

/// The bytes of all records the pairs point at, summed.
pub open spec fn live_bytes(s: Seq<(Seq<char>, CommandPosition)>) -> int
    decreases s.len(),
{
    if s.len() == 0 {
        0
    } else {
        live_bytes(s.drop_last()) + s.last().1.bytes
    }
}

/// Every summand of `live_bytes` is bounded by the whole sum.
pub proof fn lemma_live_bytes_bound(s: Seq<(Seq<char>, CommandPosition)>, i: int)
    requires
        0 <= i < s.len(),
    ensures
        0 <= live_bytes(s),
        s[i].1.bytes <= live_bytes(s),
    decreases s.len(),
{
    lemma_live_bytes_nonneg(s);
    if i < s.len() - 1 {
        lemma_live_bytes_bound(s.drop_last(), i);
    } else {
        lemma_live_bytes_nonneg(s.drop_last());
    }
}

/// `live_bytes` is never negative.
pub proof fn lemma_live_bytes_nonneg(s: Seq<(Seq<char>, CommandPosition)>)
    ensures
        0 <= live_bytes(s),
    decreases s.len(),
{
    if s.len() > 0 {
        lemma_live_bytes_nonneg(s.drop_last());
    }
}

/// How `live_bytes` changes when the pair at `i` is replaced.
pub proof fn lemma_live_bytes_update(
    s: Seq<(Seq<char>, CommandPosition)>,
    i: int,
    k: Seq<char>,
    p: CommandPosition,
)
    requires
        0 <= i < s.len(),
    ensures
        live_bytes(s.update(i, (k, p))) == live_bytes(s) - s[i].1.bytes + p.bytes,
    decreases s.len(),
{
    let s2 = s.update(i, (k, p));
    if i == s.len() - 1 {
        assert(s2.drop_last() =~= s.drop_last());
    } else {
        assert(s2.drop_last() =~= s.drop_last().update(i, (k, p)));
        lemma_live_bytes_update(s.drop_last(), i, k, p);
    }
}

/// How `live_bytes` changes when the pair at `i` is removed.
pub proof fn lemma_live_bytes_remove(s: Seq<(Seq<char>, CommandPosition)>, i: int)
    requires
        0 <= i < s.len(),
    ensures
        live_bytes(s.remove(i)) == live_bytes(s) - s[i].1.bytes,
    decreases s.len(),
{
    let s2 = s.remove(i);
    if i == s.len() - 1 {
        assert(s2 =~= s.drop_last());
    } else {
        assert(s2.drop_last() =~= s.drop_last().remove(i));
        lemma_live_bytes_remove(s.drop_last(), i);
    }
}

/// The in-memory index.
pub struct Index {
    entries: Vec<(String, CommandPosition)>,
}

impl View for Index {
    type V = Map<Seq<char>, CommandPosition>;

    open spec fn view(&self) -> Map<Seq<char>, CommandPosition> {
        seq_to_map(self.spec_entries())
    }
}

impl Index {
    /// The key/position pairs as the specification sees them.
    pub closed spec fn spec_entries(&self) -> Seq<(Seq<char>, CommandPosition)> {
        self.entries@.map_values(|e: (String, CommandPosition)| (e.0@, e.1))
    }

    /// The index is well formed when its keys are pairwise distinct.
    pub open spec fn wf(&self) -> bool {
        distinct_keys(self.spec_entries())
    }

    /// An empty index.
    pub fn new() -> (r: Index)
        ensures
            r.wf(),
            r@ == Map::<Seq<char>, CommandPosition>::empty(),
            r.spec_entries() == Seq::<(Seq<char>, CommandPosition)>::empty(),
    {
        let r = Index { entries: Vec::new() };
        proof {
            assert(r.spec_entries() =~= Seq::<(Seq<char>, CommandPosition)>::empty());
        }
        r
    }

    /// The number of live keys.
    pub fn len(&self) -> (r: usize)
        ensures
            r == self.spec_entries().len(),
    {
        self.entries.len()
    }

    /// The position of the pair that carries `key`, if any.
    fn find(&self, key: &String) -> (r: Option<usize>)
        ensures
            r matches Some(i) ==> i < self.spec_entries().len() && self.spec_entries()[i as int].0
                == key@,
            r is None ==> forall|i: int|
                0 <= i < self.spec_entries().len() ==> (#[trigger] self.spec_entries()[i]).0
                    != key@,
    {
        let n = self.entries.len();
        let mut i: usize = 0;
        while i < n
            invariant
                n == self.spec_entries().len(),
                i <= n,
                forall|j: int| 0 <= j < i ==> (#[trigger] self.spec_entries()[j]).0 != key@,
            decreases n - i,
        {
            if self.entries[i].0.eq(key) {
                return Some(i);
            }
            i = i + 1;
        }
        None
    }

    /// Look a key up.
    pub fn get(&self, key: &String) -> (r: Option<CommandPosition>)
        requires
            self.wf(),
        ensures
            self@.contains_key(key@) ==> r == Some(self@[key@]),
            !self@.contains_key(key@) ==> r is None,
    {
        proof {
            lemma_seq_to_map_domain(self.spec_entries(), key@);
        }
        match self.find(key) {
            Some(i) => {
                proof {
                    lemma_seq_to_map_index(self.spec_entries(), i as int);
                }
                Some(self.entries[i].1)
            },
            None => None,
        }
    }

    /// Install or replace the position for a key; the previous position, if
    /// any, is handed back.
    pub fn insert(&mut self, key: String, pos: CommandPosition) -> (r: Option<CommandPosition>)
        requires
            old(self).wf(),
        ensures
            final(self).wf(),
            final(self)@ == old(self)@.insert(key@, pos),
            old(self)@.contains_key(key@) ==> r == Some(old(self)@[key@]) && exists|i: int|
                0 <= i < old(self).spec_entries().len() && (#[trigger] old(
                    self,
                ).spec_entries()[i]).0 == key@ && final(self).spec_entries() == old(
                    self,
                ).spec_entries().update(i, (key@, pos)),
            !old(self)@.contains_key(key@) ==> r is None && final(self).spec_entries() == old(
                self,
            ).spec_entries().push((key@, pos)),
    {
        proof {
            lemma_seq_to_map_domain(self.spec_entries(), key@);
        }
        match self.find(&key) {
            Some(i) => {
                let prev = self.entries[i].1;
                let ghost s = self.spec_entries();
                let ghost ii = i as int;
                self.entries[i] = (key, pos);
                proof {
                    lemma_seq_to_map_index(s, ii);
                    assert(self.spec_entries() =~= s.update(ii, (s[ii].0, pos)));
                    lemma_seq_to_map_update(s, ii, pos);
                }
                Some(prev)
            },
            None => {
                let ghost s = self.spec_entries();
                self.entries.push((key, pos));
                proof {
                    assert(self.spec_entries() =~= s.push((self.spec_entries().last().0, pos)));
                    assert(self.spec_entries().drop_last() =~= s);
                }
                None
            },
        }
    }

    /// Delete the pair for a key; its position, if any, is handed back.
    pub fn remove(&mut self, key: &String) -> (r: Option<CommandPosition>)
        requires
            old(self).wf(),
        ensures
            final(self).wf(),
            final(self)@ == old(self)@.remove(key@),
            old(self)@.contains_key(key@) ==> r == Some(old(self)@[key@]) && exists|i: int|
                0 <= i < old(self).spec_entries().len() && (#[trigger] old(
                    self,
                ).spec_entries()[i]).0 == key@ && final(self).spec_entries() == old(
                    self,
                ).spec_entries().remove(i),
            !old(self)@.contains_key(key@) ==> r is None && *final(self) == *old(self),
    {
        proof {
            lemma_seq_to_map_domain(self.spec_entries(), key@);
        }
        match self.find(key) {
            Some(i) => {
                let ghost s = self.spec_entries();
                let ghost ii = i as int;
                let prev = self.entries.remove(i);
                proof {
                    lemma_seq_to_map_index(s, ii);
                    assert(self.spec_entries() =~= s.remove(ii));
                    lemma_seq_to_map_remove(s, ii);
                    assert forall|x: int, y: int|
                        0 <= x < y < self.spec_entries().len() implies (
                    #[trigger] self.spec_entries()[x]).0 != (#[trigger] self.spec_entries()[y]).0 by {
                        if y < ii {
                            assert(s[x].0 != s[y].0);
                        } else if x < ii {
                            assert(s[x].0 != s[y + 1].0);
                        } else {
                            assert(s[x + 1].0 != s[y + 1].0);
                        }
                    }
                }
                Some(prev.1)
            },
            None => {
                proof {
                    assert(old(self)@ =~= old(self)@.remove(key@));
                }
                None
            },
        }
    }

    /// The position stored in the pair at `i`.
    pub fn pos_at(&self, i: usize) -> (r: CommandPosition)
        requires
            i < self.spec_entries().len(),
        ensures
            r == self.spec_entries()[i as int].1,
    {
        self.entries[i].1
    }

    /// Point the pair at `i` at a new position, keeping its key.
    pub fn set_pos_at(&mut self, i: usize, pos: CommandPosition)
        requires
            i < old(self).spec_entries().len(),
        ensures
            final(self).spec_entries() == old(self).spec_entries().update(
                i as int,
                (old(self).spec_entries()[i as int].0, pos),
            ),
    {
        let key = self.entries[i].0.clone();
        let ghost s = self.spec_entries();
        self.entries[i] = (key, pos);
        proof {
            assert(self.spec_entries() =~= s.update(i as int, (s[i as int].0, pos)));
        }
    }
}

} // verus!
