//! A cache of fetched byte ranges that is bounded by the bytes it holds and
//! evicts its smallest entries first.

use vstd::prelude::*;
use std::sync::Arc;

verus! {

/// The ceiling recommended for the bytes held by a cache: 20 MiB.
pub const MEM_LIMIT: usize = 20 * 1024 * 1024;

/// The buffer type of the `oval` crate, which holds the bytes of a cached range.
#[verifier::external_type_specification]
#[verifier::external_body]
pub struct ExBuffer(oval::Buffer);

/// The bytes that a buffer holds ready to be read.
pub uninterp spec fn buffer_data(buffer: oval::Buffer) -> Seq<u8>;

/// The number of bytes that a buffer was made to hold.
pub uninterp spec fn buffer_capacity(buffer: oval::Buffer) -> nat;

/// `oval::Buffer::from_slice`: a buffer that starts full with a copy of
/// `data` and whose capacity is the length of `data`.
#[verifier::external_body]
fn buffer_from(data: &[u8]) -> (r: oval::Buffer)
    ensures
        buffer_data(r) == data@,
        buffer_capacity(r) == data@.len(),
{
    oval::Buffer::from_slice(data)
}

/// `oval::Buffer::data`: the bytes that the buffer holds ready to be read.
#[verifier::external_body]
fn buffer_bytes(buffer: &oval::Buffer) -> (r: &[u8])
    ensures
        r@ == buffer_data(*buffer),
{
    buffer.data()
}

/// `oval::Buffer::capacity`: the number of bytes that the buffer was made to hold.
#[verifier::external_body]
fn buffer_size(buffer: &oval::Buffer) -> (r: usize)
    ensures
        r == buffer_capacity(*buffer),
{
    buffer.capacity()
}

/// One cached range of the source and the bytes that were fetched for it.
#[derive(Debug, Clone)]
pub struct CacheEntry {
    pub start: usize,
    pub end: usize,
    pub bytes: Arc<oval::Buffer>,
}

impl CacheEntry {
    /// The cached bytes.
    pub fn data(&self) -> (r: &[u8])
        ensures
            r@ == buffer_data(*self.bytes),
    {
        buffer_bytes(&self.bytes)
    }
}

/// A cache of fetched ranges that never holds more than `ceiling` bytes.
#[derive(Debug)]
pub struct RangeCache {
    pub entries: Vec<CacheEntry>,
    pub ceiling: usize,
    pub used: usize,
}

/// Number of bytes that an entry holds.
pub open spec fn entry_len(e: CacheEntry) -> nat {
    buffer_capacity(*e.bytes)
}

/// Number of bytes that all of `entries` hold together.
pub open spec fn total_len(entries: Seq<CacheEntry>) -> nat
    decreases entries.len(),
{
    if entries.len() == 0 {
        0
    } else {
        total_len(entries.drop_last()) + entry_len(entries.last())
    }
}

/// The entry at `i` is the first among the smallest entries of `entries`.
pub open spec fn is_smallest(entries: Seq<CacheEntry>, i: int) -> bool {
    &&& 0 <= i < entries.len()
    &&& forall|j: int|
        0 <= j < entries.len() ==> entry_len(entries[i]) <= entry_len(#[trigger] entries[j])
    &&& forall|j: int| 0 <= j < i ==> entry_len(entries[i]) < entry_len(#[trigger] entries[j])
}

/// Position of the first among the smallest entries of `entries`.
pub open spec fn smallest(entries: Seq<CacheEntry>) -> int {
    choose|i: int| is_smallest(entries, i)
}

/// What is left of `entries` after the smallest entries were evicted, one
/// after the other, until the rest holds at most `room` bytes.
pub open spec fn evicted(entries: Seq<CacheEntry>, room: nat) -> Seq<CacheEntry>
    decreases entries.len(),
{
    let i = smallest(entries);
    if total_len(entries) <= room || !(0 <= i < entries.len()) {
        entries
    } else {
        evicted(entries.remove(i), room)
    }
}

/// The entry at `i` holds exactly the range from `start` to `end`, and no earlier entry does.
pub open spec fn is_position(entries: Seq<CacheEntry>, start: usize, end: usize, i: int) -> bool {
    &&& 0 <= i < entries.len()
    &&& entries[i].start == start && entries[i].end == end
    &&& forall|j: int|
        0 <= j < i ==> !((#[trigger] entries[j]).start == start && entries[j].end == end)
}

/// Position of the first entry that holds exactly the range from `start` to `end`.
pub open spec fn position(entries: Seq<CacheEntry>, start: usize, end: usize) -> Option<int> {
    if exists|i: int| is_position(entries, start, end, i) {
        Some(choose|i: int| is_position(entries, start, end, i))
    } else {
        None
    }
}

/// `entries` without the first entry for the range from `start` to `end`.
pub open spec fn without(entries: Seq<CacheEntry>, start: usize, end: usize) -> Seq<CacheEntry> {
    match position(entries, start, end) {
        Some(i) => entries.remove(i),
        None => entries,
    }
}

/// Removing an entry lowers the total by the bytes it held.
pub proof fn lemma_total_remove(entries: Seq<CacheEntry>, i: int)
    requires
        0 <= i < entries.len(),
    ensures
        total_len(entries.remove(i)) + entry_len(entries[i]) == total_len(entries),
    decreases entries.len(),
{
    if i == entries.len() - 1 {
        assert(entries.remove(i) =~= entries.drop_last());
    } else {
        lemma_total_remove(entries.drop_last(), i);
        assert(entries.remove(i).drop_last() =~= entries.drop_last().remove(i));
        assert(entries.remove(i).last() == entries.last());
    }
}

/// Adding an entry raises the total by the bytes it holds.
pub proof fn lemma_total_push(entries: Seq<CacheEntry>, e: CacheEntry)
    ensures
        total_len(entries.push(e)) == total_len(entries) + entry_len(e),
{
    assert(entries.push(e).drop_last() =~= entries);
}

/// The first among the smallest entries is found at one position only.
pub proof fn lemma_smallest(entries: Seq<CacheEntry>, i: int)
    requires
        is_smallest(entries, i),
    ensures
        smallest(entries) == i,
{
    let k = smallest(entries);
    assert(is_smallest(entries, k));
    if k < i {
        assert(entry_len(entries[i]) < entry_len(entries[k]));
    }
    if i < k {
        assert(entry_len(entries[k]) < entry_len(entries[i]));
    }
}

/// The first entry for a range is found at one position only.
pub proof fn lemma_position(entries: Seq<CacheEntry>, start: usize, end: usize, i: int)
    requires
        is_position(entries, start, end, i),
    ensures
        position(entries, start, end) == Some(i),
{
    let k = position(entries, start, end)->Some_0;
    assert(is_position(entries, start, end, k));
    if k < i {
        assert(!(entries[k].start == start && entries[k].end == end));
    }
    if i < k {
        assert(!(entries[i].start == start && entries[i].end == end));
    }
}

/// Eviction leaves at most `room` bytes.
pub proof fn lemma_evicted_fits(entries: Seq<CacheEntry>, room: nat)
    ensures
        total_len(evicted(entries, room)) <= room,
        evicted(entries, room).len() <= entries.len(),
    decreases entries.len(),
{
    let i = smallest(entries);
    if total_len(entries) <= room {
    } else if 0 <= i < entries.len() {
        lemma_evicted_fits(entries.remove(i), room);
    } else {
        // A total above `room` means that there is an entry, hence a smallest one.
        lemma_has_smallest(entries);
    }
}

/// A cache that holds an entry has a first among its smallest entries.
pub proof fn lemma_has_smallest(entries: Seq<CacheEntry>)
    requires
        entries.len() > 0,
    ensures
        is_smallest(entries, smallest(entries)),
    decreases entries.len(),
{
    if entries.len() == 1 {
        assert(is_smallest(entries, 0));
    } else {
        let rest = entries.drop_last();
        lemma_has_smallest(rest);
        let k = smallest(rest);
        if entry_len(entries.last()) < entry_len(rest[k]) {
            assert forall|j: int| 0 <= j < entries.len() implies entry_len(entries.last())
                <= entry_len(#[trigger] entries[j]) by {
                if j < rest.len() {
                    assert(entry_len(rest[k]) <= entry_len(rest[j]));
                }
            }
            assert forall|j: int| 0 <= j < entries.len() - 1 implies entry_len(entries.last())
                < entry_len(#[trigger] entries[j]) by {
                assert(entry_len(rest[k]) <= entry_len(rest[j]));
            }
            assert(is_smallest(entries, entries.len() - 1));
        } else {
            assert forall|j: int| 0 <= j < entries.len() implies entry_len(entries[k])
                <= entry_len(#[trigger] entries[j]) by {
                if j < rest.len() {
                    assert(entry_len(rest[k]) <= entry_len(rest[j]));
                }
            }
            assert forall|j: int| 0 <= j < k implies entry_len(entries[k]) < entry_len(
                #[trigger] entries[j],
            ) by {
                assert(entry_len(rest[k]) < entry_len(rest[j]));
            }
            assert(is_smallest(entries, k));
        }
    }
}

impl RangeCache {
    /// The cache holds what it says it holds, and no more than its ceiling.
    pub open spec fn wf(&self) -> bool {
        &&& self.used == total_len(self.entries@)
        &&& self.used <= self.ceiling
    }

    /// An empty cache with the given ceiling.
    pub fn new(ceiling: usize) -> (r: Self)
        ensures
            r.wf(),
            r.ceiling == ceiling,
            r.entries@.len() == 0,
    {
        RangeCache { entries: Vec::new(), ceiling, used: 0 }
    }

    /// Number of bytes that the cache holds.
    pub fn used(&self) -> (r: usize)
        ensures
            r == self.used,
    {
        self.used
    }

    /// Position of the first entry for exactly the range from `start` to `end`.
    pub fn find(&self, start: usize, end: usize) -> (r: Option<usize>)
        ensures
            match r {
                Some(i) => is_position(self.entries@, start, end, i as int) && position(
                    self.entries@,
                    start,
                    end,
                ) == Some(i as int),
                None => position(self.entries@, start, end) is None,
            },
    {
        let mut i: usize = 0;
        while i < self.entries.len()
            invariant
                i <= self.entries@.len(),
                forall|j: int|
                    0 <= j < i ==> !((#[trigger] self.entries@[j]).start == start
                        && self.entries@[j].end == end),
            decreases self.entries@.len() - i,
        {
            if self.entries[i].start == start && self.entries[i].end == end {
                proof {
                    lemma_position(self.entries@, start, end, i as int);
                }
                return Some(i);
            }
            i += 1;
        }
        assert(position(self.entries@, start, end) is None) by {
            if exists|k: int| is_position(self.entries@, start, end, k) {
                let k = choose|k: int| is_position(self.entries@, start, end, k);
                assert(!(self.entries@[k].start == start && self.entries@[k].end == end));
            }
        }
        None
    }

    /// The bytes cached for exactly the range from `start` to `end`, if any.
    pub fn lookup(&self, start: usize, end: usize) -> (r: Option<Arc<oval::Buffer>>)
        ensures
            match position(self.entries@, start, end) {
                Some(i) => r == Some(self.entries@[i].bytes),
                None => r is None,
            },
    {
        match self.find(start, end) {
            Some(i) => Some(Arc::clone(&self.entries[i].bytes)),
            None => None,
        }
    }

    /// Position of the first among the smallest entries of a cache that is not empty.
    fn find_smallest(&self) -> (r: usize)
        requires
            self.entries@.len() > 0,
        ensures
            r == smallest(self.entries@),
            is_smallest(self.entries@, r as int),
    {
        let mut best: usize = 0;
        let mut i: usize = 1;
        while i < self.entries.len()
            invariant
                1 <= i <= self.entries@.len(),
                best < i,
                forall|j: int|
                    0 <= j < i ==> entry_len(self.entries@[best as int]) <= entry_len(
                        #[trigger] self.entries@[j],
                    ),
                forall|j: int|
                    0 <= j < best ==> entry_len(self.entries@[best as int]) < entry_len(
                        #[trigger] self.entries@[j],
                    ),
            decreases self.entries@.len() - i,
        {
            if buffer_size(&self.entries[i].bytes) < buffer_size(&self.entries[best].bytes) {
                best = i;
            }
            i += 1;
        }
        proof {
            lemma_smallest(self.entries@, best as int);
        }
        best
    }

    /// Publishes the bytes fetched for the range from `start` to `end` and
    /// returns the shared buffer that holds a copy of them. An earlier entry
    /// for the same range is replaced. Before the new entry is added, the
    /// smallest entries are evicted until the new one fits under the
    /// ceiling. Bytes that alone exceed the ceiling are handed back in their
    /// buffer without being cached.
    pub fn insert(&mut self, start: usize, end: usize, bytes: &[u8]) -> (r: Arc<oval::Buffer>)
        requires
            old(self).wf(),
        ensures
            final(self).wf(),
            final(self).ceiling == old(self).ceiling,
            buffer_data(*r) == bytes@,
            buffer_capacity(*r) == bytes@.len(),
            final(self).entries@ == (if bytes@.len() <= old(self).ceiling {
                evicted(
                    without(old(self).entries@, start, end),
                    (old(self).ceiling - bytes@.len()) as nat,
                ).push(CacheEntry { start, end, bytes: r })
            } else {
                old(self).entries@
            }),
    {
        let size = bytes.len();
        let shared = Arc::new(buffer_from(bytes));
        if size > self.ceiling {
            return shared;
        }
        let room = self.ceiling - size;
        match self.find(start, end) {
            Some(i) => {
                proof {
                    lemma_total_remove(self.entries@, i as int);
                }
                let gone = self.entries.remove(i);
                self.used = self.used - buffer_size(&gone.bytes);
            },
            None => {},
        }
        let ghost base = self.entries@;
        while self.used > room
            invariant
                self.used == total_len(self.entries@),
                self.ceiling == old(self).ceiling,
                room == self.ceiling - size,
                evicted(self.entries@, room as nat) == evicted(base, room as nat),
            decreases self.entries@.len(),
        {
            assert(self.entries@.len() > 0);
            let i = self.find_smallest();
            proof {
                lemma_total_remove(self.entries@, i as int);
            }
            let gone = self.entries.remove(i);
            self.used = self.used - buffer_size(&gone.bytes);
        }
        proof {
            lemma_total_push(self.entries@, CacheEntry { start, end, bytes: shared });
        }
        self.entries.push(CacheEntry { start, end, bytes: Arc::clone(&shared) });
        self.used = self.used + size;
        shared
    }

    /// The ceiling is a hard bound: whatever is published, the cache holds
    /// no more than its ceiling afterwards, and bytes that fit under the
    /// ceiling are held at the end of the cache.
    pub proof fn lemma_insert_respects_ceiling(
        before: Seq<CacheEntry>,
        ceiling: nat,
        start: usize,
        end: usize,
        fresh: CacheEntry,
    )
        requires
            entry_len(fresh) <= ceiling,
        ensures
            total_len(
                evicted(without(before, start, end), (ceiling - entry_len(fresh)) as nat).push(
                    fresh,
                ),
            ) <= ceiling,
            evicted(without(before, start, end), (ceiling - entry_len(fresh)) as nat).push(
                fresh,
            ).last() == fresh,
    {
        let room = (ceiling - entry_len(fresh)) as nat;
        lemma_evicted_fits(without(before, start, end), room);
        lemma_total_push(evicted(without(before, start, end), room), fresh);
    }
}

/// The bytes that a shared buffer holds.
pub fn shared_bytes(buffer: &Arc<oval::Buffer>) -> (r: &[u8])
    ensures
        r@ == buffer_data(**buffer),
{
    buffer_bytes(buffer)
}

} // verus!
