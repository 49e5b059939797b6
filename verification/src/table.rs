use vstd::prelude::*;

verus! {

/// A frequency table: a mapping from k-mers (byte strings) to occurrence
/// counts, stored as a list of entries with pairwise-distinct keys.
pub struct KmerTable {
    entries: Vec<(Vec<u8>, usize)>,
}

impl KmerTable {
    /// The entries as a mathematical sequence of (k-mer, count) pairs.
    pub closed spec fn entries_view(self) -> Seq<(Seq<u8>, usize)> {
        self.entries@.map_values(|e: (Vec<u8>, usize)| (e.0@, e.1))
    }

    /// Well-formed: keys are pairwise distinct and every count is positive.
    pub open spec fn wf(self) -> bool {
        &&& forall|i: int, j: int|
            0 <= i < j < self.entries_view().len() ==> self.entries_view()[i].0
                != self.entries_view()[j].0
        &&& forall|i: int|
            0 <= i < self.entries_view().len() ==> (#[trigger] self.entries_view()[i]).1 >= 1
    }

    /// Whether some entry carries the key `w`.
    pub open spec fn has_key(self, w: Seq<u8>) -> bool {
        exists|i: int| 0 <= i < self.entries_view().len() && (#[trigger] self.entries_view()[i]).0 == w
    }

    /// The position of the entry carrying `w`.
    pub open spec fn index_of(self, w: Seq<u8>) -> int {
        choose|i: int| 0 <= i < self.entries_view().len() && (#[trigger] self.entries_view()[i]).0 == w
    }

    /// The table as a mathematical map from k-mer to count.
    pub open spec fn as_map(self) -> Map<Seq<u8>, usize> {
        Map::new(
            |w: Seq<u8>| self.has_key(w),
            |w: Seq<u8>| self.entries_view()[self.index_of(w)].1,
        )
    }

    /// In a well-formed table, the entry at position `i` is what the map holds for its key.
    pub proof fn lemma_as_map_at(self, i: int)
        requires
            self.wf(),
            0 <= i < self.entries_view().len(),
        ensures
            self.as_map().contains_key(self.entries_view()[i].0),
            self.as_map()[self.entries_view()[i].0] == self.entries_view()[i].1,
            self.as_map()[self.entries_view()[i].0] >= 1,
    {
        let w = self.entries_view()[i].0;
        assert(self.has_key(w));
        let j = self.index_of(w);
        assert(0 <= j < self.entries_view().len() && self.entries_view()[j].0 == w);
        if i != j {
            assert(self.entries_view()[i].0 != self.entries_view()[j].0);
        }
    }

    /// In a well-formed table, every held count is positive.
    pub proof fn lemma_as_map_pos(self, w: Seq<u8>)
        requires
            self.wf(),
            self.has_key(w),
        ensures
            self.as_map()[w] >= 1,
    {
        let i = self.index_of(w);
        assert(0 <= i < self.entries_view().len() && self.entries_view()[i].0 == w);
    }

    pub fn new() -> (t: KmerTable)
        ensures
            t.entries_view() == Seq::<(Seq<u8>, usize)>::empty(),
            t.wf(),
    {
        let t = KmerTable { entries: Vec::new() };
        proof {
            assert(t.entries_view() =~= Seq::<(Seq<u8>, usize)>::empty());
        }
        t
    }

    pub fn len(&self) -> (n: usize)
        ensures
            n == self.entries_view().len(),
    {
        self.entries.len()
    }

    pub fn key_at(&self, i: usize) -> (w: &Vec<u8>)
        requires
            i < self.entries_view().len(),
        ensures
            w@ == self.entries_view()[i as int].0,
    {
        &self.entries[i].0
    }

    pub fn count_at(&self, i: usize) -> (c: usize)
        requires
            i < self.entries_view().len(),
        ensures
            c == self.entries_view()[i as int].1,
    {
        self.entries[i].1
    }

    /// Add an entry for a key not yet present.
    pub fn push_entry(&mut self, w: Vec<u8>, c: usize)
        requires
            !old(self).has_key(w@),
            c >= 1,
        ensures
            final(self).entries_view() == old(self).entries_view().push((w@, c)),
            old(self).wf() ==> final(self).wf(),
    {
        let ghost pre = self.entries_view();
        self.entries.push((w, c));
        proof {
            assert(self.entries_view() =~= pre.push((w@, c)));
            if old(self).wf() {
                assert forall|i: int, j: int|
                    0 <= i < j < self.entries_view().len() implies self.entries_view()[i].0
                    != self.entries_view()[j].0 by {
                    if j == pre.len() {
                        assert(!old(self).has_key(w@));
                        assert(self.entries_view()[i].0 == pre[i].0);
                    }
                }
            }
        }
    }

    /// Build a table from a list of entries with distinct keys and positive counts.
    pub fn from_entries(es: Vec<(Vec<u8>, usize)>) -> (t: KmerTable)
        requires
            forall|i: int, j: int| 0 <= i < j < es@.len() ==> es@[i].0@ != es@[j].0@,
            forall|i: int| 0 <= i < es@.len() ==> (#[trigger] es@[i]).1 >= 1,
        ensures
            t.wf(),
            t.entries_view().len() == es@.len(),
            forall|i: int|
                0 <= i < es@.len() ==> (#[trigger] t.entries_view()[i]) == (es@[i].0@, es@[i].1),
    {
        let t = KmerTable { entries: es };
        t
    }
}

} // verus!
