use vstd::prelude::*;

verus! {

// The bounded handle cache: a fixed-capacity least-recently-used store from
// generational keys to owned handles. Keys are minted by a monotonic counter
// and never reused within the cache's lifetime, so a stale key can only miss;
// it can never collide with a live entry.
/// A generational cache key: a plain monotonic number, meaningless outside
/// the cache instance that issued it.
#[derive(Clone, Copy, Debug, PartialEq, Eq, Hash, Structural)]
pub struct Key {
    pub index: u32,
}

impl Key {
    /// The first key a fresh cache hands out.
    pub fn new() -> (r: Key)
        ensures
            r.index == 0,
    {
        Key { index: 0 }
    }

    /// The key minted after this one.
    pub fn next(self) -> (r: Key)
        requires
            self.index < u32::MAX,
        ensures
            r.index == self.index + 1,
    {
        Key { index: self.index + 1 }
    }
}

/// A fixed-capacity least-recently-used cache. Entries are kept in recency
/// order: the first is the next to be evicted, the last was touched most
/// recently.
pub struct LruCache<T> {
    entries: Vec<(Key, T)>,
    capacity: usize,
    current_key: Key,
}

impl<T> LruCache<T> {
    /// The cached entries in recency order, least recently used first.
    pub closed spec fn entries_model(&self) -> Seq<(u32, T)> {
        self.entries@.map_values(|e: (Key, T)| (e.0.index, e.1))
    }

    /// The capacity the cache was created with.
    pub closed spec fn spec_capacity(&self) -> int {
        self.capacity as int
    }

    /// The counter the next minted key comes from.
    pub closed spec fn spec_next_key(&self) -> int {
        self.current_key.index as int
    }

    /// The cache never outgrows its capacity, live keys are all below the
    /// counter, and no two live keys are equal.
    pub closed spec fn wf(&self) -> bool {
        &&& self.entries_model().len() <= self.spec_capacity()
        &&& forall|i: int|
            0 <= i < self.entries_model().len() ==> (#[trigger] self.entries_model()[i]).0
                < self.spec_next_key()
        &&& forall|i: int, j: int|
            0 <= i < j < self.entries_model().len() ==> (#[trigger] self.entries_model()[i]).0
                != (#[trigger] self.entries_model()[j]).0
    }

    /// An empty cache that will hold at most `capacity` entries.
    pub fn new(capacity: usize) -> (r: LruCache<T>)
        ensures
            r.wf(),
            r.entries_model().len() == 0,
            r.spec_capacity() == capacity,
            r.spec_next_key() == 0,
    {
        let r = LruCache { entries: Vec::new(), capacity, current_key: Key::new() };
        proof {
            assert(r.entries_model() =~= Seq::<(u32, T)>::empty());
        }
        r
    }

    /// How many entries are resident.
    pub fn len(&self) -> (r: usize)
        ensures
            r == self.entries_model().len(),
    {
        self.entries.len()
    }

    /// Where a key lives in the recency order, if it is resident.
    fn position_of(&self, k: &Key) -> (r: Option<usize>)
        ensures
            r matches Some(i) ==> i < self.entries_model().len() && self.entries_model()[
                i as int
            ].0 == k.index,
            r is None ==> forall|i: int|
                0 <= i < self.entries_model().len() ==> (#[trigger] self.entries_model()[i]).0
                    != k.index,
    {
        let n = self.entries.len();
        let mut i: usize = 0;
        while i < n
            invariant
                n == self.entries@.len(),
                i <= n,
                forall|t: int|
                    0 <= t < i ==> (#[trigger] self.entries_model()[t]).0 != k.index,
            decreases n - i,
        {
            if self.entries[i].0.index == k.index {
                assert(self.entries_model()[i as int].0 == k.index);
                return Some(i);
            }
            i = i + 1;
        }
        None
    }

    /// Insert a value under a freshly minted, strictly increasing key. When
    /// the cache is full, the least-recently-used entry - the first in
    /// recency order - is evicted first, so residency never exceeds the
    /// capacity. Returns the new key for later lookup.
    pub fn push(&mut self, value: T) -> (k: Key)
        requires
            old(self).wf(),
            old(self).spec_capacity() >= 1,
            old(self).spec_next_key() < u32::MAX,
        ensures
            final(self).wf(),
            k.index == old(self).spec_next_key(),
            final(self).spec_next_key() == old(self).spec_next_key() + 1,
            final(self).spec_capacity() == old(self).spec_capacity(),
            final(self).entries_model() == if old(self).entries_model().len() == old(
                self,
            ).spec_capacity() {
                old(self).entries_model().drop_first().push((k.index, value))
            } else {
                old(self).entries_model().push((k.index, value))
            },
            final(self).entries_model().len() <= old(self).spec_capacity(),
    {
        let key = self.current_key;
        if self.entries.len() == self.capacity {
            let ghost before = self.entries_model();
            self.entries.remove(0);
            proof {
                assert(self.entries_model() =~= before.drop_first());
            }
        }
        let ghost mid = self.entries_model();
        self.entries.push((key, value));
        self.current_key = Key { index: key.index + 1 };
        proof {
            assert(self.entries_model() =~= mid.push((key.index, value)));
        }
        key
    }

    /// The cached value for `key` if it is resident, marking it most
    /// recently used; otherwise the value the factory produces, inserted
    /// under `key` (evicting the least-recently-used entry when full) and
    /// returned. Calling this on a zero-capacity cache is a caller error,
    /// ruled out by the precondition.
    pub fn get_or_insert<F: FnOnce() -> T>(&mut self, k: Key, f: F) -> (r: &T)
        requires
            old(self).wf(),
            old(self).spec_capacity() >= 1,
            k.index < old(self).spec_next_key(),
            call_requires(f, ()),
        ensures
            final(self).wf(),
            final(self).spec_capacity() == old(self).spec_capacity(),
            final(self).spec_next_key() == old(self).spec_next_key(),
            final(self).entries_model().len() >= 1,
            final(self).entries_model().last() == ((k.index, *r)),
            ({
                let before = old(self).entries_model();
                match lru_position(before, k.index) {
                    Option::Some(i) => final(self).entries_model() == before.remove(i).push(
                        before[i],
                    ),
                    Option::None => exists|v: T|
                        call_ensures(f, (), v) && final(self).entries_model() == (if before.len()
                            == old(self).spec_capacity() {
                            before.drop_first()
                        } else {
                            before
                        }).push((k.index, v)),
                }
            }),
    {
        let ghost before = self.entries_model();
        let pos = self.position_of(&k);
        proof {
            lemma_lru_position_agrees(before, k.index, pos);
        }
        match pos {
            Some(i) => {
                let entry = self.entries.remove(i);
                let ghost mid = self.entries_model();
                proof {
                    assert(mid =~= before.remove(i as int));
                }
                self.entries.push(entry);
                proof {
                    assert(self.entries_model() =~= before.remove(i as int).push(
                        before[i as int],
                    ));
                }
            },
            None => {
                let value = f();
                let ghost gv = value;
                if self.entries.len() == self.capacity {
                    let ghost full = self.entries_model();
                    self.entries.remove(0);
                    proof {
                        assert(self.entries_model() =~= full.drop_first());
                    }
                }
                let ghost mid = self.entries_model();
                self.entries.push((k, value));
                proof {
                    assert(self.entries_model() =~= mid.push((k.index, gv)));
                    assert(call_ensures(f, (), gv));
                }
            },
        }
        &self.entries[self.entries.len() - 1].1
    }
}

/// Where a key sits in an entry sequence, if anywhere.
pub open spec fn lru_position<T>(entries: Seq<(u32, T)>, key: u32) -> Option<int> {
    if exists|i: int| 0 <= i < entries.len() && (#[trigger] entries[i]).0 == key {
        Option::Some(choose|i: int| 0 <= i < entries.len() && (#[trigger] entries[i]).0 == key)
    } else {
        Option::None
    }
}

proof fn lemma_lru_position_agrees<T>(entries: Seq<(u32, T)>, key: u32, pos: Option<usize>)
    requires
        forall|i: int, j: int|
            0 <= i < j < entries.len() ==> (#[trigger] entries[i]).0 != (#[trigger] entries[j]).0,
        pos matches Some(i) ==> i < entries.len() && entries[i as int].0 == key,
        pos is None ==> forall|i: int|
            0 <= i < entries.len() ==> (#[trigger] entries[i]).0 != key,
    ensures
        match pos {
            Option::Some(i) => lru_position(entries, key) == Option::Some(i as int),
            Option::None => lru_position(entries, key) is None,
        },
{
    match pos {
        Option::Some(i) => {
            let w = choose|t: int| 0 <= t < entries.len() && (#[trigger] entries[t]).0 == key;
            if w != i as int {
                if w < i as int {
                    assert(entries[w].0 != entries[i as int].0);
                } else {
                    assert(entries[i as int].0 != entries[w].0);
                }
            }
        },
        Option::None => {},
    }
}

} // verus!
