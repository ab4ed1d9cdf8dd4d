//! The in-memory index: a mapping from key to the record pointer of the
//! most recent `SET` for that key.

use vstd::prelude::*;
use vstd::pervasive::VecAdditionalExecFns;

verus! {

/// Where the most recent `SET` for a key lives: the log file's generation,
/// the record's offset within it, and the record's length.
#[derive(Debug, Clone, Copy, PartialEq, Eq, Structural)]
pub struct RecordPointer {
    /// The generation number of the log file holding the record.
    pub gen: u64,
    /// The record's first character within that file.
    pub offset: usize,
    /// How many characters the record occupies.
    pub len: usize,
}

#[derive(Debug)]
struct IndexEntry {
    key: String,
    ptr: RecordPointer,
}

/// The key-to-pointer mapping, stored as a list of entries with pairwise
/// distinct keys.
#[derive(Debug)]
pub struct Index {
    entries: Vec<IndexEntry>,
}

/// The mapping that a list of entries denotes, later entries winning.
spec fn map_of(s: Seq<IndexEntry>) -> Map<Seq<char>, RecordPointer>
    decreases s.len(),
{
    if s.len() == 0 {
        Map::empty()
    } else {
        map_of(s.drop_last()).insert(s.last().key@, s.last().ptr)
    }
}

/// The sum of the record lengths of a list of pointers.
pub open spec fn sum_lens(s: Seq<RecordPointer>) -> int
    decreases s.len(),
{
    if s.len() == 0 {
        0
    } else {
        sum_lens(s.drop_last()) + s.last().len
    }
}

impl Index {
    /// The keys, in entry order.
    pub closed spec fn key_seq(self) -> Seq<Seq<char>> {
        self.entries@.map_values(|e: IndexEntry| e.key@)
    }

    /// The pointers, in entry order.
    pub closed spec fn ptr_seq(self) -> Seq<RecordPointer> {
        self.entries@.map_values(|e: IndexEntry| e.ptr)
    }

    /// The mapping this index denotes.
    pub closed spec fn view(self) -> Map<Seq<char>, RecordPointer> {
        map_of(self.entries@)
    }

    /// The keys are pairwise distinct.
    pub closed spec fn inv(self) -> bool {
        forall|i: int, j: int|
            0 <= i < j < self.entries@.len() ==> self.entries@[i].key@ != self.entries@[j].key@
    }

    /// The total length of all pointed-at records: the live characters.
    pub open spec fn total_ptr_len(self) -> int {
        sum_lens(self.ptr_seq())
    }

    /// A fresh, empty index.
    pub fn new() -> (r: Index)
        ensures
            r.inv(),
            r@ == Map::<Seq<char>, RecordPointer>::empty(),
            r.key_seq() == Seq::<Seq<char>>::empty(),
            r.total_ptr_len() == 0,
    {
        let r = Index { entries: Vec::new() };
        proof {
            assert(r.key_seq() =~= Seq::<Seq<char>>::empty());
            assert(r.ptr_seq() =~= Seq::<RecordPointer>::empty());
        }
        r
    }

    /// How many keys the index holds.
    pub fn len(&self) -> (r: usize)
        ensures
            r == self.key_seq().len(),
    {
        self.entries.len()
    }

    /// The pointer of the entry at `j`.
    pub fn ptr_at(&self, j: usize) -> (r: RecordPointer)
        requires
            j < self.key_seq().len(),
        ensures
            r == self.ptr_seq()[j as int],
    {
        self.entries[j].ptr
    }

    fn find(&self, key: &String) -> (r: Option<usize>)
        ensures
            r matches Some(j) ==> j < self.entries@.len() && self.entries@[j as int].key@
                == key@,
            r is None ==> forall|j: int|
                0 <= j < self.entries@.len() ==> self.entries@[j].key@ != key@,
    {
        let mut j: usize = 0;
        while j < self.entries.len()
            invariant
                j <= self.entries@.len(),
                forall|i: int| 0 <= i < j ==> self.entries@[i].key@ != key@,
            decreases self.entries@.len() - j,
        {
            if self.entries[j].key == *key {
                return Some(j);
            }
            j += 1;
        }
        None
    }

    /// The pointer for `key`, if the key is present.
    pub fn get(&self, key: &String) -> (r: Option<RecordPointer>)
        requires
            self.inv(),
        ensures
            r matches Some(p) ==> self@.contains_key(key@) && self@[key@] == p,
            r is None ==> !self@.contains_key(key@),
    {
        proof {
            lemma_map_of_contains(self.entries@);
            lemma_map_of_index(self.entries@);
        }
        match self.find(key) {
            Some(j) => Some(self.entries[j].ptr),
            None => None,
        }
    }

    /// Puts `ptr` under `key`, handing back the pointer it replaces, if
    /// any.
    pub fn insert(&mut self, key: String, ptr: RecordPointer) -> (r: Option<RecordPointer>)
        requires
            old(self).inv(),
        ensures
            final(self).inv(),
            final(self)@ == old(self)@.insert(key@, ptr),
            r matches Some(p) ==> old(self)@.contains_key(key@) && old(self)@[key@] == p
                && final(self).total_ptr_len() == old(self).total_ptr_len() - p.len + ptr.len
                && final(self).key_seq() == old(self).key_seq(),
            r is None ==> !old(self)@.contains_key(key@) && final(self).total_ptr_len() == old(
                self,
            ).total_ptr_len() + ptr.len && final(self).key_seq() == old(self).key_seq().push(
                key@,
            ),
    {
        proof {
            lemma_map_of_contains(self.entries@);
            lemma_map_of_index(self.entries@);
        }
        match self.find(&key) {
            Some(j) => {
                let prev = self.entries[j].ptr;
                let ghost olds = self.entries@;
                self.entries.set(j, IndexEntry { key, ptr });
                proof {
                    lemma_map_of_update(olds, j as int, self.entries@[j as int]);
                    lemma_sum_lens_update(
                        olds.map_values(|e: IndexEntry| e.ptr),
                        j as int,
                        ptr,
                    );
                    assert(self.entries@.map_values(|e: IndexEntry| e.ptr) =~= olds.map_values(
                        |e: IndexEntry| e.ptr,
                    ).update(j as int, ptr));
                    assert(self.key_seq() =~= old(self).key_seq());
                }
                Some(prev)
            },
            None => {
                let ghost olds = self.entries@;
                self.entries.push(IndexEntry { key, ptr });
                proof {
                    assert(self.entries@.drop_last() =~= olds);
                    lemma_sum_lens_snoc(olds.map_values(|e: IndexEntry| e.ptr), ptr);
                    assert(self.entries@.map_values(|e: IndexEntry| e.ptr) =~= olds.map_values(
                        |e: IndexEntry| e.ptr,
                    ).push(ptr));
                    assert(self.key_seq() =~= old(self).key_seq().push(
                        self.entries@.last().key@,
                    ));
                }
                None
            },
        }
    }

    /// Takes `key` out, handing back its pointer if the key was present.
    pub fn remove(&mut self, key: &String) -> (r: Option<RecordPointer>)
        requires
            old(self).inv(),
        ensures
            final(self).inv(),
            final(self)@ == old(self)@.remove(key@),
            r matches Some(p) ==> old(self)@.contains_key(key@) && old(self)@[key@] == p
                && final(self).total_ptr_len() == old(self).total_ptr_len() - p.len,
            r is None ==> !old(self)@.contains_key(key@) && *final(self) == *old(self),
    {
        proof {
            lemma_map_of_contains(self.entries@);
            lemma_map_of_index(self.entries@);
        }
        match self.find(key) {
            Some(j) => {
                let ghost olds = self.entries@;
                let e = self.entries.remove(j);
                proof {
                    lemma_map_of_remove(olds, j as int);
                    lemma_sum_lens_remove(olds.map_values(|ent: IndexEntry| ent.ptr), j as int);
                    assert(self.entries@.map_values(|ent: IndexEntry| ent.ptr) =~= olds.map_values(
                        |ent: IndexEntry| ent.ptr,
                    ).remove(j as int));
                }
                Some(e.ptr)
            },
            None => {
                proof {
                    assert(old(self)@.remove(key@) =~= old(self)@);
                }
                None
            },
        }
    }
}

/// A key is in the denoted mapping exactly when some entry carries it.
proof fn lemma_map_of_contains(s: Seq<IndexEntry>)
    ensures
        forall|k: Seq<char>|
            #[trigger] map_of(s).contains_key(k) <==> (exists|j: int|
                0 <= j < s.len() && s[j].key@ == k),
    decreases s.len(),
{
    if s.len() > 0 {
        lemma_map_of_contains(s.drop_last());
        assert forall|k: Seq<char>| #[trigger]
            map_of(s).contains_key(k) implies (exists|j: int|
            0 <= j < s.len() && s[j].key@ == k) by {
            if k == s.last().key@ {
                assert(s[s.len() - 1].key@ == k);
            } else {
                assert(map_of(s.drop_last()).contains_key(k));
                let j = choose|j: int|
                    0 <= j < s.drop_last().len() && s.drop_last()[j].key@ == k;
                assert(s[j] == s.drop_last()[j]);
                assert(s[j].key@ == k);
            }
        }
        assert forall|k: Seq<char>| (exists|j: int|
            0 <= j < s.len() && s[j].key@ == k) implies #[trigger] map_of(s).contains_key(k) by {
            let j = choose|j: int| 0 <= j < s.len() && s[j].key@ == k;
            if j == s.len() - 1 {
                assert(map_of(s).contains_key(k));
            } else {
                assert(s.drop_last()[j].key@ == k);
                assert(map_of(s.drop_last()).contains_key(k));
            }
        }
    }
}

/// With distinct keys, every entry's pointer is the one the mapping holds.
proof fn lemma_map_of_index(s: Seq<IndexEntry>)
    requires
        forall|i: int, j: int| 0 <= i < j < s.len() ==> s[i].key@ != s[j].key@,
    ensures
        forall|j: int|
            0 <= j < s.len() ==> map_of(s).contains_key(#[trigger] s[j].key@) && map_of(
                s,
            )[s[j].key@] == s[j].ptr,
    decreases s.len(),
{
    if s.len() > 0 {
        lemma_map_of_index(s.drop_last());
        assert forall|j: int| 0 <= j < s.len() implies map_of(s).contains_key(
            #[trigger] s[j].key@,
        ) && map_of(s)[s[j].key@] == s[j].ptr by {
            if j < s.len() - 1 {
                assert(s.drop_last()[j] == s[j]);
                assert(s[j].key@ != s.last().key@);
            }
        }
    }
}

/// Replacing the entry at `j` with one carrying the same key re-points that
/// key and leaves the rest of the mapping alone.
proof fn lemma_map_of_update(s: Seq<IndexEntry>, j: int, e: IndexEntry)
    requires
        0 <= j < s.len(),
        e.key@ == s[j].key@,
        forall|i1: int, i2: int| 0 <= i1 < i2 < s.len() ==> s[i1].key@ != s[i2].key@,
    ensures
        map_of(s.update(j, e)) == map_of(s).insert(e.key@, e.ptr),
    decreases s.len(),
{
    let t = s.update(j, e);
    if j == s.len() - 1 {
        assert(t.drop_last() =~= s.drop_last());
        assert(t.last() == e);
        assert(map_of(t) == map_of(s.drop_last()).insert(e.key@, e.ptr));
        assert(map_of(s.drop_last()).insert(s.last().key@, s.last().ptr).insert(e.key@, e.ptr)
            =~= map_of(s.drop_last()).insert(e.key@, e.ptr));
    } else {
        assert(t.drop_last() =~= s.drop_last().update(j, e));
        assert(s.drop_last()[j] == s[j]);
        lemma_map_of_update(s.drop_last(), j, e);
        assert(t.last() == s.last());
        assert(map_of(t) == map_of(s.drop_last()).insert(e.key@, e.ptr).insert(
            s.last().key@,
            s.last().ptr,
        ));
        assert(e.key@ != s.last().key@);
        assert(map_of(s.drop_last()).insert(e.key@, e.ptr).insert(s.last().key@, s.last().ptr)
            =~= map_of(s.drop_last()).insert(s.last().key@, s.last().ptr).insert(e.key@, e.ptr));
    }
}

/// Taking the entry at `j` out takes exactly its key out of the mapping.
proof fn lemma_map_of_remove(s: Seq<IndexEntry>, j: int)
    requires
        0 <= j < s.len(),
        forall|i1: int, i2: int| 0 <= i1 < i2 < s.len() ==> s[i1].key@ != s[i2].key@,
    ensures
        map_of(s.remove(j)) == map_of(s).remove(s[j].key@),
    decreases s.len(),
{
    let t = s.remove(j);
    lemma_map_of_contains(s.drop_last());
    if j == s.len() - 1 {
        assert(t =~= s.drop_last());
        assert(!map_of(s.drop_last()).contains_key(s[j].key@));
        assert(map_of(s.drop_last()).insert(s.last().key@, s.last().ptr).remove(s[j].key@)
            =~= map_of(s.drop_last()));
    } else {
        assert(t.drop_last() =~= s.drop_last().remove(j));
        assert(s.drop_last()[j] == s[j]);
        lemma_map_of_remove(s.drop_last(), j);
        assert(t.last() == s.last());
        assert(map_of(t) == map_of(s.drop_last()).remove(s[j].key@).insert(
            s.last().key@,
            s.last().ptr,
        ));
        assert(s[j].key@ != s.last().key@);
        assert(map_of(s.drop_last()).remove(s[j].key@).insert(s.last().key@, s.last().ptr)
            =~= map_of(s.drop_last()).insert(s.last().key@, s.last().ptr).remove(s[j].key@));
    }
}

/// The record lengths sum to at least zero.
pub proof fn lemma_sum_lens_nonneg(s: Seq<RecordPointer>)
    ensures
        sum_lens(s) >= 0,
    decreases s.len(),
{
    if s.len() > 0 {
        lemma_sum_lens_nonneg(s.drop_last());
    }
}

/// Each pointer's record length is at most the sum.
pub proof fn lemma_sum_lens_element(s: Seq<RecordPointer>, j: int)
    requires
        0 <= j < s.len(),
    ensures
        s[j].len <= sum_lens(s),
    decreases s.len(),
{
    lemma_sum_lens_nonneg(s.drop_last());
    if j < s.len() - 1 {
        lemma_sum_lens_element(s.drop_last(), j);
    }
}

/// Appending a pointer adds its record length to the sum.
proof fn lemma_sum_lens_snoc(s: Seq<RecordPointer>, p: RecordPointer)
    ensures
        sum_lens(s.push(p)) == sum_lens(s) + p.len,
{
    assert(s.push(p).drop_last() =~= s);
}

/// One more entry of a prefix adds its record length to the prefix sum.
pub proof fn lemma_sum_lens_take_snoc(s: Seq<RecordPointer>, j: int)
    requires
        0 <= j < s.len(),
    ensures
        sum_lens(s.take(j + 1)) == sum_lens(s.take(j)) + s[j].len,
{
    assert(s.take(j + 1) =~= s.take(j).push(s[j]));
    lemma_sum_lens_snoc(s.take(j), s[j]);
}

/// Replacing the pointer at `j` swaps its record length in the sum.
proof fn lemma_sum_lens_update(s: Seq<RecordPointer>, j: int, p: RecordPointer)
    requires
        0 <= j < s.len(),
    ensures
        sum_lens(s.update(j, p)) == sum_lens(s) - s[j].len + p.len,
    decreases s.len(),
{
    let t = s.update(j, p);
    if j == s.len() - 1 {
        assert(t.drop_last() =~= s.drop_last());
    } else {
        assert(t.drop_last() =~= s.drop_last().update(j, p));
        assert(s.drop_last()[j] == s[j]);
        lemma_sum_lens_update(s.drop_last(), j, p);
        assert(t.last() == s.last());
    }
}

/// Taking the pointer at `j` out subtracts its record length from the sum.
proof fn lemma_sum_lens_remove(s: Seq<RecordPointer>, j: int)
    requires
        0 <= j < s.len(),
    ensures
        sum_lens(s.remove(j)) == sum_lens(s) - s[j].len,
    decreases s.len(),
{
    let t = s.remove(j);
    if j == s.len() - 1 {
        assert(t =~= s.drop_last());
    } else {
        assert(t.drop_last() =~= s.drop_last().remove(j));
        assert(s.drop_last()[j] == s[j]);
        lemma_sum_lens_remove(s.drop_last(), j);
        assert(t.last() == s.last());
    }
}


/// A present key's record length is at most the live total.
pub proof fn lemma_ptr_len_le_total(idx: Index, k: Seq<char>)
    requires
        idx.inv(),
        idx@.contains_key(k),
    ensures
        idx@[k].len <= idx.total_ptr_len(),
{
    lemma_map_of_contains(idx.entries@);
    lemma_map_of_index(idx.entries@);
    let j = choose|j: int| 0 <= j < idx.entries@.len() && idx.entries@[j].key@ == k;
    assert(idx@[k] == idx.entries@[j].ptr);
    assert(idx.ptr_seq()[j] == idx.entries@[j].ptr);
    lemma_sum_lens_element(idx.ptr_seq(), j);
}

/// The index's keys are pairwise distinct, each key is in the mapping with
/// its entry's pointer, and every mapped key stands at some entry.
pub proof fn lemma_view_entries(idx: Index)
    requires
        idx.inv(),
    ensures
        idx.ptr_seq().len() == idx.key_seq().len(),
        forall|i: int, j: int|
            0 <= i < j < idx.key_seq().len() ==> idx.key_seq()[i] != idx.key_seq()[j],
        forall|j: int|
            0 <= j < idx.key_seq().len() ==> idx@.contains_key(#[trigger] idx.key_seq()[j])
                && idx@[idx.key_seq()[j]] == idx.ptr_seq()[j],
        forall|k: Seq<char>|
            #[trigger] idx@.contains_key(k) ==> exists|j: int|
                0 <= j < idx.key_seq().len() && idx.key_seq()[j] == k,
{
    lemma_map_of_contains(idx.entries@);
    lemma_map_of_index(idx.entries@);
    assert forall|j: int| 0 <= j < idx.key_seq().len() implies idx@.contains_key(
        #[trigger] idx.key_seq()[j],
    ) && idx@[idx.key_seq()[j]] == idx.ptr_seq()[j] by {
        assert(idx.key_seq()[j] == idx.entries@[j].key@);
        assert(idx.ptr_seq()[j] == idx.entries@[j].ptr);
    }
    assert forall|k: Seq<char>| #[trigger] idx@.contains_key(k) implies exists|j: int|
        0 <= j < idx.key_seq().len() && idx.key_seq()[j] == k by {
        let j = choose|j: int| 0 <= j < idx.entries@.len() && idx.entries@[j].key@ == k;
        assert(idx.key_seq()[j] == k);
    }
}

} // verus!
