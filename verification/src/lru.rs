//! A dictionary that keeps at most `size` entries and forgets the least
//! recently used one when it overflows.
//!
//! The entries are held in recency order: index 0 is the most recently used
//! entry, the last index the least recently used one.  Keys are compared by a
//! caller-supplied matcher (in the extension, the host language's `==`, which
//! may fail); every keyed operation is therefore split into a search
//! (`find_idx`) and an operation on the position that the search found.
use std::collections::VecDeque;
use vstd::prelude::*;

verus! {

broadcast use vstd::std_specs::vecdeque::group_vec_dequeue_axioms;

/// Errors that the LRU dictionary reports itself.
#[derive(Debug, PartialEq, Eq, Structural, Clone, Copy)]
pub enum LruError {
    /// A size of zero was asked for.
    SizeNotPositive,
    /// `popitem` was called on an empty dictionary.
    Empty,
}

/// Abstract state of the dictionary.
pub struct LruModel<K, V> {
    /// Entries in recency order, most recently used first.
    pub entries: Seq<(K, V)>,
    /// Largest number of entries kept.
    pub size: nat,
    /// Number of successful lookups since creation or `clear`.
    pub hits: nat,
    /// Number of failed lookups since creation or `clear`.
    pub misses: nat,
}

/// LRU dictionary; see the module documentation.
pub struct PyLRU<K, V> {
    entries: VecDeque<(K, V)>,
    size: usize,
    hits: usize,
    misses: usize,
}

impl<K, V> View for PyLRU<K, V> {
    type V = LruModel<K, V>;

    closed spec fn view(&self) -> LruModel<K, V> {
        LruModel {
            entries: self.entries@,
            size: self.size as nat,
            hits: self.hits as nat,
            misses: self.misses as nat,
        }
    }
}

/// The state invariant: a positive size that the entries never exceed.
pub open spec fn model_wf<K, V>(m: LruModel<K, V>) -> bool {
    &&& 1 <= m.size <= usize::MAX
    &&& m.entries.len() <= m.size
    &&& m.hits <= usize::MAX
    &&& m.misses <= usize::MAX
}

/// A counter incremented by one, wrapping around at `usize::MAX`.
pub open spec fn bump(n: nat) -> nat {
    if n < usize::MAX {
        n + 1
    } else {
        0
    }
}

/// `s` with its entry at `i` moved to the front.
pub open spec fn moved_to_front<T>(s: Seq<T>, i: int) -> Seq<T> {
    seq![s[i]] + s.remove(i)
}

/// `m` with its entries replaced by `s`.
pub open spec fn with_entries<K, V>(m: LruModel<K, V>, s: Seq<(K, V)>) -> LruModel<K, V> {
    LruModel { entries: s, ..m }
}

/// A new dictionary of the given size.
pub open spec fn empty_model<K, V>(size: nat) -> LruModel<K, V> {
    LruModel { entries: Seq::empty(), size, hits: 0, misses: 0 }
}

/// `m` after `clear`: no entries, counters reset, size kept.
pub open spec fn cleared<K, V>(m: LruModel<K, V>) -> LruModel<K, V> {
    LruModel { entries: Seq::empty(), hits: 0, misses: 0, ..m }
}

/// Number of entries left when `len` entries are cut down to `size`.
pub open spec fn kept_len(len: nat, size: nat) -> int {
    if len <= size {
        len as int
    } else {
        size as int
    }
}

/// `m` after its size is set to `size`: the `size` most recent entries stay.
pub open spec fn resized<K, V>(m: LruModel<K, V>, size: nat) -> LruModel<K, V> {
    LruModel { entries: m.entries.take(kept_len(m.entries.len(), size)), size, ..m }
}

/// Entries after writing `(key, value)`: in place of the entry at `found`
/// (which keeps its key) or as a new entry, in both cases moved to the front;
/// a new entry that makes the dictionary overflow pushes out the last one.
pub open spec fn set_entries<K, V>(s: Seq<(K, V)>, size: nat, found: Option<int>, key: K, value: V) -> Seq<(K, V)> {
    match found {
        Some(i) => moved_to_front(s.update(i, (s[i].0, value)), i),
        None => if s.len() < size {
            seq![(key, value)] + s
        } else {
            seq![(key, value)] + s.drop_last()
        },
    }
}

/// The entry that writing pushes out, if any.
pub open spec fn set_evicted<K, V>(s: Seq<(K, V)>, size: nat, found: Option<int>) -> Option<(K, V)> {
    match found {
        Some(i) => None,
        None => if s.len() < size {
            None
        } else {
            Some(s.last())
        },
    }
}

/// Model after writing `(key, value)` at the position `found`.
pub open spec fn after_set<K, V>(m: LruModel<K, V>, found: Option<int>, key: K, value: V) -> LruModel<K, V> {
    LruModel { entries: set_entries(m.entries, m.size, found, key, value), ..m }
}

/// Model after a lookup whose search found `found`: a hit moves the entry to
/// the front and counts a hit, a miss counts a miss.
pub open spec fn after_lookup<K, V>(m: LruModel<K, V>, found: Option<int>) -> LruModel<K, V> {
    match found {
        Some(i) => LruModel { entries: moved_to_front(m.entries, i), hits: bump(m.hits), ..m },
        None => LruModel { misses: bump(m.misses), ..m },
    }
}

/// `found` is a position that a search over `m` can report.
pub open spec fn valid_found<K, V>(m: LruModel<K, V>, found: Option<usize>) -> bool {
    found matches Some(i) ==> i < m.entries.len()
}

/// Position as a mathematical index.
pub open spec fn opt_int(found: Option<usize>) -> Option<int> {
    match found {
        Some(i) => Some(i as int),
        None => None,
    }
}

impl<K, V> PyLRU<K, V> {
    #[verifier::type_invariant]
    closed spec fn inv(self) -> bool {
        model_wf(self@)
    }

    /// Moves the entries out, leaving the dictionary empty.
    fn take_entries(&mut self) -> (r: VecDeque<(K, V)>)
        ensures
            r@ == old(self)@.entries,
            final(self)@ == with_entries(old(self)@, Seq::empty()),
    {
        proof {
            use_type_invariant(&*self);
        }
        let mut entries = VecDeque::new();
        std::mem::swap(&mut entries, &mut self.entries);
        entries
    }

    /// A new, empty dictionary that keeps at most `size` entries.
    pub fn new(size: usize) -> (r: Result<Self, LruError>)
        ensures
            size == 0 ==> r == Err::<Self, LruError>(LruError::SizeNotPositive),
            size > 0 ==> (r matches Ok(l) && l@ == empty_model::<K, V>(size as nat) && model_wf(l@)),
    {
        if size == 0 {
            return Err(LruError::SizeNotPositive);
        }
        Ok(PyLRU { entries: VecDeque::new(), size, hits: 0, misses: 0 })
    }

    /// Number of entries.
    pub fn len(&self) -> (r: usize)
        ensures
            r == self@.entries.len(),
            model_wf(self@),
    {
        proof {
            use_type_invariant(self);
        }
        self.entries.len()
    }

    /// Largest number of entries kept.
    pub fn get_size(&self) -> (r: usize)
        ensures
            r == self@.size,
    {
        self.size
    }

    /// Hits and misses counted so far.
    pub fn get_stats(&self) -> (r: (usize, usize))
        ensures
            r.0 == self@.hits,
            r.1 == self@.misses,
    {
        (self.hits, self.misses)
    }

    /// Position of the first entry (most recent first) whose key `matches`
    /// accepts; the first error of `matches` is passed on.
    pub fn find_idx<E, F: Fn(&K) -> Result<bool, E>>(&self, matches: F) -> (r: Result<Option<usize>, E>)
        requires
            forall|k: &K| call_requires(matches, (k,)),
        ensures
            match r {
                Ok(Some(i)) => {
                    &&& i < self@.entries.len()
                    &&& call_ensures(matches, (&self@.entries[i as int].0,), Ok::<bool, E>(true))
                    &&& forall|j: int| 0 <= j < i ==>
                        call_ensures(matches, (&#[trigger] self@.entries[j].0,), Ok::<bool, E>(false))
                },
                Ok(None) => forall|j: int| 0 <= j < self@.entries.len() ==>
                    call_ensures(matches, (&#[trigger] self@.entries[j].0,), Ok::<bool, E>(false)),
                Err(e) => exists|i: int| {
                    &&& 0 <= i < self@.entries.len()
                    &&& call_ensures(matches, (&self@.entries[i].0,), Err::<bool, E>(e))
                    &&& forall|j: int| 0 <= j < i ==>
                        call_ensures(matches, (&#[trigger] self@.entries[j].0,), Ok::<bool, E>(false))
                },
            },
    {
        let n = self.entries.len();
        let mut i: usize = 0;
        while i < n
            invariant
                n == self@.entries.len(),
                i <= n,
                forall|k: &K| call_requires(matches, (k,)),
                forall|j: int| 0 <= j < i ==>
                    call_ensures(matches, (&#[trigger] self@.entries[j].0,), Ok::<bool, E>(false)),
            decreases n - i,
        {
            let entry = &self.entries[i];
            match matches(&entry.0) {
                Ok(true) => {
                    return Ok(Some(i));
                },
                Ok(false) => {},
                Err(e) => {
                    return Err(e);
                },
            }
            i = i + 1;
        }
        Ok(None)
    }

    /// Moves the entry at `idx` to the front.
    pub fn move_to_front(&mut self, idx: usize)
        requires
            idx < old(self)@.entries.len(),
        ensures
            final(self)@ == with_entries(old(self)@, moved_to_front(old(self)@.entries, idx as int)),
            model_wf(final(self)@),
    {
        proof {
            use_type_invariant(&*self);
        }
        if idx != 0 {
            let mut entries = self.take_entries();
            let entry = entries.remove(idx).unwrap();
            entries.push_front(entry);
            self.entries = entries;
        } else {
            assert(moved_to_front(self@.entries, 0) =~= self@.entries);
        }
    }

    /// Removes and returns the least recently used entry.
    pub fn evict_lru(&mut self) -> (r: Option<(K, V)>)
        ensures
            old(self)@.entries.len() == 0 ==> (r is None) && final(self)@ == old(self)@,
            old(self)@.entries.len() > 0 ==> (r == Some(old(self)@.entries.last()))
                && final(self)@ == with_entries(old(self)@, old(self)@.entries.drop_last()),
    {
        proof {
            use_type_invariant(&*self);
        }
        let mut entries = self.take_entries();
        let r = entries.pop_back();
        self.entries = entries;
        r
    }

    /// Writes `(key, value)`: at position `found` (the search result for
    /// `key`, whose key is kept) or as a new entry; either way the entry
    /// becomes the most recent.  A new entry in a full dictionary pushes out
    /// the least recently used entry, which is returned.
    pub fn internal_set(&mut self, found: Option<usize>, key: K, value: V) -> (r: Option<(K, V)>)
        requires
            valid_found(old(self)@, found),
        ensures
            final(self)@ == after_set(old(self)@, opt_int(found), key, value),
            r == set_evicted(old(self)@.entries, old(self)@.size, opt_int(found)),
            model_wf(final(self)@),
    {
        proof {
            use_type_invariant(&*self);
        }
        match found {
            Some(idx) => {
                let mut entries = self.take_entries();
                let (k, _) = entries.remove(idx).unwrap();
                entries.push_front((k, value));
                self.entries = entries;
                assert(self@.entries =~= set_entries(old(self)@.entries, old(self)@.size, opt_int(found), key, value));
                None
            },
            None => {
                let mut entries = self.take_entries();
                let evicted = if entries.len() < self.size {
                    None
                } else {
                    entries.pop_back()
                };
                entries.push_front((key, value));
                self.entries = entries;
                assert(self@.entries =~= set_entries(old(self)@.entries, old(self)@.size, opt_int(found), key, value));
                evicted
            },
        }
    }

    /// Records a lookup whose search found `found`: a hit moves the entry to
    /// the front and counts a hit, a miss counts a miss.  Returns whether it
    /// was a hit; the value found is then `peek_first_item`.
    pub fn lookup(&mut self, found: Option<usize>) -> (r: bool)
        requires
            valid_found(old(self)@, found),
        ensures
            r == (found is Some),
            final(self)@ == after_lookup(old(self)@, opt_int(found)),
            model_wf(final(self)@),
    {
        proof {
            use_type_invariant(&*self);
        }
        match found {
            Some(idx) => {
                self.move_to_front(idx);
                self.hits = self.hits.wrapping_add(1);
                true
            },
            None => {
                self.misses = self.misses.wrapping_add(1);
                false
            },
        }
    }

    /// Lookup of the key that a search found at `found` (see `lookup`),
    /// returning its value, now the most recent entry, on a hit.
    pub fn get(&mut self, found: Option<usize>) -> (r: Option<&V>)
        requires
            valid_found(old(self)@, found),
        ensures
            final(self)@ == after_lookup(old(self)@, opt_int(found)),
            model_wf(final(self)@),
            match found {
                Some(i) => r == Some(&old(self)@.entries[i as int].1),
                None => r is None,
            },
    {
        if self.lookup(found) {
            Some(&self.entries[0].1)
        } else {
            None
        }
    }

    /// Removes the entry at position `found` and returns it; `None` leaves
    /// the dictionary unchanged.
    pub fn pop(&mut self, found: Option<usize>) -> (r: Option<(K, V)>)
        requires
            valid_found(old(self)@, found),
        ensures
            match found {
                Some(i) => (r == Some(old(self)@.entries[i as int]))
                    && final(self)@ == with_entries(old(self)@, old(self)@.entries.remove(i as int)),
                None => (r is None) && final(self)@ == old(self)@,
            },
    {
        proof {
            use_type_invariant(&*self);
        }
        match found {
            Some(idx) => {
                let mut entries = self.take_entries();
                let r = entries.remove(idx);
                self.entries = entries;
                r
            },
            None => None,
        }
    }

    /// Removes and returns the least recently used entry when `least_recent`
    /// holds, else the most recently used one.
    pub fn popitem(&mut self, least_recent: bool) -> (r: Result<(K, V), LruError>)
        ensures
            old(self)@.entries.len() == 0 ==> r == Err::<(K, V), LruError>(LruError::Empty)
                && final(self)@ == old(self)@,
            old(self)@.entries.len() > 0 && least_recent ==> (r == Ok::<(K, V), LruError>(old(self)@.entries.last()))
                && final(self)@ == with_entries(old(self)@, old(self)@.entries.drop_last()),
            old(self)@.entries.len() > 0 && !least_recent ==> (r == Ok::<(K, V), LruError>(old(self)@.entries[0]))
                && final(self)@ == with_entries(old(self)@, old(self)@.entries.drop_first()),
    {
        if self.entries.len() == 0 {
            return Err(LruError::Empty);
        }
        proof {
            use_type_invariant(&*self);
        }
        let mut entries = self.take_entries();
        let entry = if least_recent {
            entries.pop_back().unwrap()
        } else {
            entries.pop_front().unwrap()
        };
        self.entries = entries;
        Ok(entry)
    }

    /// Removes the least recently used entry while there are more than
    /// `size` entries, one at a time; `None` once there are at most `size`.
    pub fn evict_over(&mut self, size: usize) -> (r: Option<(K, V)>)
        ensures
            old(self)@.entries.len() <= size ==> (r is None) && final(self)@ == old(self)@,
            old(self)@.entries.len() > size ==> (r == Some(old(self)@.entries.last()))
                && final(self)@ == with_entries(old(self)@, old(self)@.entries.drop_last()),
    {
        proof {
            use_type_invariant(&*self);
        }
        if self.entries.len() > size {
            let mut entries = self.take_entries();
            let r = entries.pop_back();
            self.entries = entries;
            r
        } else {
            None
        }
    }

    /// Sets the size, first pushing out least recently used entries until
    /// at most `size` are left; returns them in the order they left.
    pub fn set_size(&mut self, size: usize) -> (r: Result<Vec<(K, V)>, LruError>)
        ensures
            size == 0 ==> (r matches Err(e) && e == LruError::SizeNotPositive) && final(self)@ == old(self)@,
            size > 0 ==> (r matches Ok(ev) && ev@ == old(self)@.entries.skip(kept_len(old(self)@.entries.len(), size as nat)).reverse()),
            size > 0 ==> final(self)@ == resized(old(self)@, size as nat),
    {
        if size == 0 {
            return Err(LruError::SizeNotPositive);
        }
        proof {
            use_type_invariant(&*self);
        }
        let ghost start = self@.entries;
        let mut entries = self.take_entries();
        let mut evicted: Vec<(K, V)> = Vec::new();
        while entries.len() > size
            invariant
                size > 0,
                entries@.len() >= size ==> entries@ == start.take(entries@.len() as int),
                entries@.len() < size ==> entries@ == start,
                entries@.len() <= start.len(),
                evicted@ == start.skip(entries@.len() as int).reverse(),
            decreases entries@.len(),
        {
            let ghost before = entries@;
            let e = entries.pop_back().unwrap();
            evicted.push(e);
            assert(start.skip(entries@.len() as int) =~= seq![e] + start.skip(before.len() as int));
            assert(start.skip(entries@.len() as int).reverse() =~= start.skip(before.len() as int).reverse().push(e));
            assert(entries@ =~= start.take(entries@.len() as int));
        }
        assert(entries@ =~= start.take(kept_len(start.len(), size as nat)));
        self.size = size;
        self.entries = entries;
        Ok(evicted)
    }

    /// Removes every entry and resets the counters.
    pub fn clear(&mut self)
        ensures
            final(self)@ == cleared(old(self)@),
    {
        proof {
            use_type_invariant(&*self);
        }
        let _ = self.take_entries();
        self.hits = 0;
        self.misses = 0;
    }

    /// The most recently used entry, if any.
    pub fn peek_first_item(&self) -> (r: Option<&(K, V)>)
        ensures
            self@.entries.len() == 0 ==> (r is None),
            self@.entries.len() > 0 ==> (r == Some(&self@.entries[0])),
    {
        if self.entries.len() == 0 {
            None
        } else {
            Some(&self.entries[0])
        }
    }

    /// The least recently used entry, if any.
    pub fn peek_last_item(&self) -> (r: Option<&(K, V)>)
        ensures
            self@.entries.len() == 0 ==> (r is None),
            self@.entries.len() > 0 ==> (r == Some(&self@.entries.last())),
    {
        let n = self.entries.len();
        if n == 0 {
            None
        } else {
            Some(&self.entries[n - 1])
        }
    }

    /// The entry at position `idx` (0 is the most recent).
    pub fn item_at(&self, idx: usize) -> (r: &(K, V))
        requires
            idx < self@.entries.len(),
        ensures
            *r == self@.entries[idx as int],
    {
        &self.entries[idx]
    }

    /// The keys, most recent first.
    pub fn keys(&self) -> (r: Vec<&K>)
        ensures
            r@.len() == self@.entries.len(),
            forall|i: int| 0 <= i < r@.len() ==> *r@[i] == self@.entries[i].0,
    {
        let n = self.entries.len();
        let mut r: Vec<&K> = Vec::new();
        for i in 0..n
            invariant
                n == self@.entries.len(),
                r@.len() == i,
                forall|j: int| 0 <= j < i ==> *r@[j] == self@.entries[j].0,
        {
            r.push(&self.entries[i].0);
        }
        r
    }

    /// The values, most recent first.
    pub fn values(&self) -> (r: Vec<&V>)
        ensures
            r@.len() == self@.entries.len(),
            forall|i: int| 0 <= i < r@.len() ==> *r@[i] == self@.entries[i].1,
    {
        let n = self.entries.len();
        let mut r: Vec<&V> = Vec::new();
        for i in 0..n
            invariant
                n == self@.entries.len(),
                r@.len() == i,
                forall|j: int| 0 <= j < i ==> *r@[j] == self@.entries[j].1,
        {
            r.push(&self.entries[i].1);
        }
        r
    }

    /// The entries, most recent first.
    pub fn items(&self) -> (r: Vec<&(K, V)>)
        ensures
            r@.len() == self@.entries.len(),
            forall|i: int| 0 <= i < r@.len() ==> *r@[i] == self@.entries[i],
    {
        let n = self.entries.len();
        let mut r: Vec<&(K, V)> = Vec::new();
        for i in 0..n
            invariant
                n == self@.entries.len(),
                r@.len() == i,
                forall|j: int| 0 <= j < i ==> *r@[j] == self@.entries[j],
        {
            r.push(&self.entries[i]);
        }
        r
    }
}

} // verus!
