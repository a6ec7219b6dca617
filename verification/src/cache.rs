//! A small most-recently-used set of open handles, keyed by file index: a hit
//! moves the entry to the back, a miss on a full set evicts the front (least
//! recently used) entry.

use vstd::prelude::*;

verus! {

/// The keys of the entries, front (least recent) to back (most recent).
pub open spec fn keys_of<T>(entries: Seq<(u32, T)>) -> Seq<u32> {
    entries.map_values(|e: (u32, T)| e.0)
}

/// Open handles keyed by file index, at most `capacity` of them.
pub struct RecentHandles<T> {
    entries: Vec<(u32, T)>,
    capacity: usize,
}

impl<T> RecentHandles<T> {
    /// The entries, least recently used first.
    pub closed spec fn entries(&self) -> Seq<(u32, T)> {
        self.entries@
    }

    pub closed spec fn limit(&self) -> nat {
        self.capacity as nat
    }

    /// No key occurs twice, and there are never more entries than the limit.
    pub open spec fn wf(&self) -> bool {
        &&& keys_of(self.entries()).no_duplicates()
        &&& self.entries().len() <= self.limit()
        &&& self.limit() > 0
    }

    pub fn new(capacity: usize) -> (h: Self)
        requires
            capacity > 0,
        ensures
            h.wf(),
            h.entries().len() == 0,
            h.limit() == capacity,
    {
        RecentHandles { entries: Vec::new(), capacity }
    }

    pub fn len(&self) -> (n: usize)
        ensures
            n == self.entries().len(),
    {
        self.entries.len()
    }

    /// Marks `key` as just used. Returns whether it was present; if so its
    /// entry moves to the back and the others keep their order.
    pub fn touch(&mut self, key: u32) -> (hit: bool)
        requires
            old(self).wf(),
        ensures
            final(self).wf(),
            final(self).limit() == old(self).limit(),
            hit == keys_of(old(self).entries()).contains(key),
            !hit ==> final(self).entries() == old(self).entries(),
            hit ==> final(self).entries().len() == old(self).entries().len(),
            hit ==> final(self).entries().last().0 == key,
            hit ==> exists|p: int|
                0 <= p < old(self).entries().len() && old(self).entries()[p].0 == key
                    && final(self).entries() == old(self).entries().remove(p).push(
                    old(self).entries()[p],
                ),
    {
        let mut p: usize = 0;
        while p < self.entries.len()
            invariant
                p <= self.entries@.len(),
                forall|q: int| 0 <= q < p ==> self.entries@[q].0 != key,
            ensures
                p <= self.entries@.len(),
                forall|q: int| 0 <= q < p ==> self.entries@[q].0 != key,
                p < self.entries@.len() ==> self.entries@[p as int].0 == key,
            decreases self.entries@.len() - p,
        {
            if self.entries[p].0 == key {
                break;
            }
            p = p + 1;
        }
        if p == self.entries.len() {
            proof {
                if keys_of(self.entries@).contains(key) {
                    let q = choose|q: int| 0 <= q < keys_of(self.entries@).len() && keys_of(self.entries@)[q] == key;
                    assert(self.entries@[q].0 == key);
                }
            }
            return false;
        }
        let ghost before = self.entries@;
        assert(keys_of(before)[p as int] == key);
        let entry = self.entries.remove(p);
        self.entries.push(entry);
        proof {
            let after = self.entries@;
            assert(after == before.remove(p as int).push(before[p as int]));
            let kb = keys_of(before);
            let ka = keys_of(after);
            assert(ka =~= kb.remove(p as int).push(kb[p as int]));
            assert forall|i: int, j: int| 0 <= i < ka.len() && 0 <= j < ka.len() && i != j implies ka[i] != ka[j] by {
                let oi = if i == ka.len() - 1 { p as int } else if i < p { i } else { i + 1 };
                let oj = if j == ka.len() - 1 { p as int } else if j < p { j } else { j + 1 };
                assert(ka[i] == kb[oi]);
                assert(ka[j] == kb[oj]);
                assert(oi != oj);
            }
        }
        true
    }

    /// Adds a handle for `key`, which must not be present. When the set is
    /// full the least recently used entry is evicted first.
    pub fn insert(&mut self, key: u32, value: T)
        requires
            old(self).wf(),
            !keys_of(old(self).entries()).contains(key),
        ensures
            final(self).wf(),
            final(self).limit() == old(self).limit(),
            final(self).entries() == (if old(self).entries().len() == old(self).limit() {
                old(self).entries().drop_first()
            } else {
                old(self).entries()
            }).push((key, value)),
    {
        if self.entries.len() == self.capacity {
            let _evicted = self.entries.remove(0);
        }
        let ghost mid = self.entries@;
        self.entries.push((key, value));
        proof {
            let before = old(self).entries@;
            if before.len() == self.capacity {
                assert(mid =~= before.drop_first());
            } else {
                assert(mid =~= before);
            }
            let km = keys_of(mid);
            let kb = keys_of(before);
            let ka = keys_of(self.entries@);
            assert(ka =~= km.push(key));
            assert forall|i: int| 0 <= i < km.len() implies km[i] != key by {
                if before.len() == self.capacity {
                    assert(km[i] == kb[i + 1]);
                } else {
                    assert(km[i] == kb[i]);
                }
            }
            assert forall|i: int, j: int| 0 <= i < ka.len() && 0 <= j < ka.len() && i != j implies ka[i] != ka[j] by {
                if i < km.len() && j < km.len() {
                    if before.len() == self.capacity {
                        assert(km[i] == kb[i + 1] && km[j] == kb[j + 1]);
                    } else {
                        assert(km[i] == kb[i] && km[j] == kb[j]);
                    }
                }
            }
        }
    }

    /// The most recently used handle.
    pub fn most_recent_mut(&mut self) -> (h: &mut T)
        requires
            old(self).entries().len() > 0,
        ensures
            *h == old(self).entries().last().1,
            final(self).limit() == old(self).limit(),
            final(self).entries() == old(self).entries().update(
                old(self).entries().len() - 1,
                (old(self).entries().last().0, *final(h)),
            ),
    {
        let k = self.entries.len() - 1;
        &mut self.entries[k].1
    }
}

} // verus!
