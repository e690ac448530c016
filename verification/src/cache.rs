//! The cache engine: a recency-ordered object store with a soft/hard
//! capacity gate and a registry of suspended writers.
//!
//! One sequence of entries, ordered by strictly increasing recency
//! identifier, serves as both the object store and the recency index; the
//! two can therefore never disagree, which is the bijection invariant the
//! design asks for.  Aggregate size, the admission gate, and the waiter registry are
//! kept consistent with the entries by [`Cache::wf`], which every operation
//! preserves.

use vstd::prelude::*;

verus! {

/// One live cache entry: the key it is stored under, the stored bytes, the
/// size it was declared with, and the recency identifier under which the
/// recency index currently lists it.
pub struct CacheEntry {
    pub key: String,
    pub val: Vec<u8>,
    pub size: u64,
    pub rid: u64,
}

/// The ways a store attempt can fail.
#[derive(Clone, Copy, Debug, PartialEq, Eq, Structural)]
pub enum StoreError {
    /// The object alone is larger than the hard limit, so no amount of
    /// eviction could admit it.  Never worth retrying.
    CapacityUnsatisfiable,
    /// The byte stream errored or was truncated mid-drain; nothing was
    /// committed.
    IngestFailure,
    /// The caller's deadline expired while waiting for the admission gate to open.
    Timeout,
}

/// What the admission check tells a caller about a store it is about to
/// attempt.
#[derive(Clone, Copy, Debug, PartialEq, Eq, Structural)]
pub enum Admission {
    /// The admission gate is open: drain the stream and commit.
    Admit,
    /// The admission gate is closed: register a waiter and suspend until released.
    Suspend,
    /// The declared length alone exceeds the hard limit: fail immediately
    /// with `CapacityUnsatisfiable`, never suspend.
    Unsatisfiable,
}

/// Rejected configuration: the hard limit must exceed the soft limit.
#[derive(Clone, Copy, Debug, PartialEq, Eq, Structural)]
pub enum ConfigError {
    InvalidLimits,
}

/// The sum of the sizes of the entries of `s`.
pub open spec fn sum_sizes(s: Seq<CacheEntry>) -> int
    decreases s.len(),
{
    if s.len() == 0 {
        0
    } else {
        sum_sizes(s.drop_last()) + s.last().size
    }
}

/// No two entries of `s` are stored under the same key.
pub open spec fn keys_distinct(s: Seq<CacheEntry>) -> bool {
    forall|i: int, j: int| 0 <= i < j < s.len() ==> s[i].key@ != s[j].key@
}

/// Recency identifiers strictly increase along `s`: the sequence order is
/// the access order, oldest first.
pub open spec fn rids_increasing(s: Seq<CacheEntry>) -> bool {
    forall|i: int, j: int| 0 <= i < j < s.len() ==> s[i].rid < s[j].rid
}

/// The index of the entry of `s` stored under `key`, or `-1` if there is
/// none.
pub open spec fn key_index(s: Seq<CacheEntry>, key: Seq<char>) -> int
    decreases s.len(),
{
    if s.len() == 0 {
        -1
    } else if s[0].key@ == key {
        0
    } else {
        let r = key_index(s.drop_first(), key);
        if r == -1 {
            -1
        } else {
            r + 1
        }
    }
}

/// Whether some entry of `s` is stored under `key`.
pub open spec fn has_key(s: Seq<CacheEntry>, key: Seq<char>) -> bool {
    key_index(s, key) >= 0
}

/// The bytes currently stored under `key`, if any.
pub open spec fn live_value(s: Seq<CacheEntry>, key: Seq<char>) -> Option<Seq<u8>> {
    if has_key(s, key) {
        Some(s[key_index(s, key)].val@)
    } else {
        None
    }
}

/// The entry sequence after an access stores `e`: the stale entry under
/// `e`'s key, if any, is removed, and `e` is appended as the newest.  Both
/// a store and a retrieve hit reshape the entries this way.
pub open spec fn after_store(s: Seq<CacheEntry>, e: CacheEntry) -> Seq<CacheEntry> {
    if has_key(s, e.key@) {
        s.remove(key_index(s, e.key@)).push(e)
    } else {
        s.push(e)
    }
}

/// How many of the oldest entries an eviction pass toward `target` removes:
/// the least number whose removal brings the summed sizes to at most
/// `target`, or all of them if even that does not suffice.
pub open spec fn evict_count(s: Seq<CacheEntry>, target: int) -> int
    decreases s.len(),
{
    if sum_sizes(s) <= target {
        0
    } else if s.len() == 0 {
        0
    } else {
        1 + evict_count(s.drop_first(), target)
    }
}

/// The cache engine.  `entries` is at once the object store and the
/// recency index, ordered oldest-accessed first; `agg_size` tracks the sum
/// of the live sizes; `ready` is the admission gate, open exactly while
/// `agg_size` is below the hard limit; `waiters` holds the identifiers of
/// writers suspended on a closed gate.
///
/// The fields are exposed so that specifications can speak of them; use
/// the methods to mutate, since they alone preserve [`Cache::wf`].
pub struct Cache {
    pub entries: Vec<CacheEntry>,
    pub agg_size: u64,
    pub next_rid: u64,
    pub ready: bool,
    pub soft_limit: u64,
    pub hard_limit: u64,
    pub waiters: Vec<u64>,
    pub next_waiter: u64,
}

impl Cache {
    /// Well-formedness: the invariants every operation preserves.
    pub open spec fn wf(self) -> bool {
        &&& self.soft_limit < self.hard_limit
        &&& self.hard_limit <= u64::MAX / 2
        &&& keys_distinct(self.entries@)
        &&& rids_increasing(self.entries@)
        &&& forall|i: int| 0 <= i < self.entries@.len() ==> self.entries@[i].rid < self.next_rid
        &&& forall|i: int| 0 <= i < self.entries@.len() ==> self.entries@[i].size <= self.hard_limit
        &&& self.agg_size == sum_sizes(self.entries@)
        &&& (self.ready <==> self.agg_size < self.hard_limit)
        &&& forall|i: int, j: int|
            0 <= i < j < self.waiters@.len() ==> self.waiters@[i] != self.waiters@[j]
        &&& forall|i: int| 0 <= i < self.waiters@.len() ==> self.waiters@[i] < self.next_waiter
    }

    /// Whether the admission gate is open.
    pub open spec fn gate_open(self) -> bool {
        self.ready
    }

    /// Builds an empty cache with the given limits.  The hard limit must
    /// exceed the soft limit, else the configuration is rejected.
    pub fn new(soft_limit: u64, hard_limit: u64) -> (r: Result<Cache, ConfigError>)
        requires
            hard_limit <= u64::MAX / 2,
        ensures
            hard_limit > soft_limit ==> {
                &&& r is Ok
                &&& r->Ok_0.wf()
                &&& r->Ok_0.entries@ == Seq::<CacheEntry>::empty()
                &&& r->Ok_0.agg_size == 0
                &&& r->Ok_0.gate_open()
                &&& r->Ok_0.soft_limit == soft_limit
                &&& r->Ok_0.hard_limit == hard_limit
                &&& r->Ok_0.waiters@ == Seq::<u64>::empty()
                &&& r->Ok_0.next_rid == 0
                &&& r->Ok_0.next_waiter == 0
            },
            hard_limit <= soft_limit ==> r == Err::<Cache, ConfigError>(ConfigError::InvalidLimits),
    {
        if hard_limit <= soft_limit {
            return Err(ConfigError::InvalidLimits);
        }
        Ok(Cache {
            entries: Vec::new(),
            agg_size: 0,
            next_rid: 0,
            ready: true,
            soft_limit,
            hard_limit,
            waiters: Vec::new(),
            next_waiter: 0,
        })
    }

    /// The admission decision for a store whose declared length is
    /// `declared_len` (0 when unknown): an oversized object is refused
    /// outright, a closed gate means the writer must suspend, and
    /// otherwise the store may proceed.
    pub fn admission(&self, declared_len: u64) -> (a: Admission)
        requires
            self.wf(),
        ensures
            a == (if declared_len > self.hard_limit {
                Admission::Unsatisfiable
            } else if !self.gate_open() {
                Admission::Suspend
            } else {
                Admission::Admit
            }),
    {
        if declared_len > self.hard_limit {
            Admission::Unsatisfiable
        } else if !self.ready {
            Admission::Suspend
        } else {
            Admission::Admit
        }
    }

    /// Whether writes are currently admitted.
    pub fn is_ready(&self) -> (r: bool)
        ensures
            r == self.gate_open(),
    {
        self.ready
    }

    /// The tracked sum of the live entries' sizes.
    pub fn aggregate_size(&self) -> (r: u64)
        ensures
            r == self.agg_size,
    {
        self.agg_size
    }

    /// How many entries are live.
    pub fn entry_count(&self) -> (r: usize)
        ensures
            r == self.entries@.len(),
    {
        self.entries.len()
    }

    /// Whether a fresh recency identifier can still be minted — the
    /// precondition every access pays; it holds for the first
    /// 2^64 - 1 accesses of a cache's lifetime.
    pub fn can_mint_rid(&self) -> (r: bool)
        ensures
            r == (self.next_rid < u64::MAX),
    {
        self.next_rid < u64::MAX
    }

    /// Whether a fresh waiter identifier can still be issued.
    pub fn can_register_waiter(&self) -> (r: bool)
        ensures
            r == (self.next_waiter < u64::MAX),
    {
        self.next_waiter < u64::MAX
    }
}

proof fn lemma_sum_sizes_nonneg(s: Seq<CacheEntry>)
    ensures
        sum_sizes(s) >= 0,
    decreases s.len(),
{
    if s.len() > 0 {
        lemma_sum_sizes_nonneg(s.drop_last());
    }
}

proof fn lemma_sum_sizes_push(s: Seq<CacheEntry>, e: CacheEntry)
    ensures
        sum_sizes(s.push(e)) == sum_sizes(s) + e.size,
{
    assert(s.push(e).drop_last() =~= s);
    assert(s.push(e).last() == e);
}

proof fn lemma_sum_sizes_first(s: Seq<CacheEntry>)
    requires
        s.len() > 0,
    ensures
        sum_sizes(s) == s[0].size + sum_sizes(s.drop_first()),
    decreases s.len(),
{
    if s.len() == 1 {
        assert(s.drop_last() =~= Seq::<CacheEntry>::empty());
        assert(s.drop_first() =~= Seq::<CacheEntry>::empty());
    } else {
        lemma_sum_sizes_first(s.drop_last());
        assert(s.drop_last().drop_first() =~= s.drop_first().drop_last());
        assert(s.drop_first().last() == s.last());
        assert(s.drop_last()[0] == s[0]);
        assert(sum_sizes(s.drop_first()) == sum_sizes(s.drop_first().drop_last())
            + s.drop_first().last().size);
    }
}

proof fn lemma_sum_sizes_remove(s: Seq<CacheEntry>, i: int)
    requires
        0 <= i < s.len(),
    ensures
        sum_sizes(s.remove(i)) == sum_sizes(s) - s[i].size,
    decreases s.len(),
{
    if i == s.len() - 1 {
        assert(s.remove(i) =~= s.drop_last());
    } else {
        lemma_sum_sizes_remove(s.drop_last(), i);
        assert(s.remove(i).drop_last() =~= s.drop_last().remove(i));
        assert(s.remove(i).last() == s.last());
        assert(s.drop_last()[i] == s[i]);
        assert(sum_sizes(s.remove(i)) == sum_sizes(s.remove(i).drop_last())
            + s.remove(i).last().size);
    }
}

proof fn lemma_key_index_at(s: Seq<CacheEntry>, key: Seq<char>, i: int)
    requires
        0 <= i < s.len(),
        s[i].key@ == key,
        forall|j: int| 0 <= j < i ==> s[j].key@ != key,
    ensures
        key_index(s, key) == i,
    decreases i,
{
    if i > 0 {
        assert(forall|j: int| 0 <= j < i - 1 ==> s.drop_first()[j] == s[j + 1]);
        assert(s.drop_first()[i - 1] == s[i]);
        lemma_key_index_at(s.drop_first(), key, i - 1);
    }
}

proof fn lemma_key_index_absent(s: Seq<CacheEntry>, key: Seq<char>)
    requires
        forall|j: int| 0 <= j < s.len() ==> s[j].key@ != key,
    ensures
        key_index(s, key) == -1,
    decreases s.len(),
{
    if s.len() > 0 {
        assert(forall|j: int| 0 <= j < s.len() - 1 ==> s.drop_first()[j] == s[j + 1]);
        lemma_key_index_absent(s.drop_first(), key);
    }
}

proof fn lemma_key_index_props(s: Seq<CacheEntry>, key: Seq<char>)
    ensures
        -1 <= key_index(s, key) < s.len(),
        key_index(s, key) >= 0 ==> s[key_index(s, key)].key@ == key,
        key_index(s, key) >= 0 ==> forall|j: int| 0 <= j < key_index(s, key) ==> s[j].key@ != key,
        key_index(s, key) == -1 ==> forall|j: int| 0 <= j < s.len() ==> s[j].key@ != key,
    decreases s.len(),
{
    if s.len() > 0 {
        lemma_key_index_props(s.drop_first(), key);
        assert(forall|j: int| 0 <= j < s.len() - 1 ==> s.drop_first()[j] == s[j + 1]);
        if s[0].key@ != key {
            let rd = key_index(s.drop_first(), key);
            if rd == -1 {
                assert forall|j: int| 0 <= j < s.len() implies s[j].key@ != key by {
                    if j > 0 {
                        assert(s[j] == s.drop_first()[j - 1]);
                    }
                }
            } else {
                assert(s[rd + 1] == s.drop_first()[rd]);
                assert forall|j: int| 0 <= j < rd + 1 implies s[j].key@ != key by {
                    if j > 0 {
                        assert(s[j] == s.drop_first()[j - 1]);
                    }
                }
            }
        }
    }
}

/// Replacing the entry at `i` — the one stored under `e`'s key — with a
/// freshly minted `e` appended at the end keeps the entries well shaped:
/// keys stay distinct, recency identifiers stay increasing, the sum moves
/// by the difference of the sizes, and `e`'s key now lives at the end.
proof fn lemma_replace_entry(s: Seq<CacheEntry>, i: int, e: CacheEntry, next: u64)
    requires
        keys_distinct(s),
        rids_increasing(s),
        forall|j: int| 0 <= j < s.len() ==> s[j].rid < next,
        0 <= i < s.len(),
        s[i].key@ == e.key@,
        e.rid == next,
    ensures
        ({
            let u = s.remove(i).push(e);
            &&& u.len() == s.len()
            &&& forall|j: int| 0 <= j < i ==> u[j] == s[j]
            &&& forall|j: int| i <= j < s.len() - 1 ==> u[j] == s[j + 1]
            &&& u[s.len() - 1] == e
            &&& keys_distinct(u)
            &&& rids_increasing(u)
            &&& forall|j: int| 0 <= j < u.len() ==> u[j].rid < next + 1
            &&& sum_sizes(u) == sum_sizes(s) - s[i].size + e.size
            &&& key_index(u, e.key@) == s.len() - 1
        }),
{
    let t = s.remove(i);
    let u = t.push(e);
    s.remove_ensures(i);
    lemma_sum_sizes_remove(s, i);
    lemma_sum_sizes_push(t, e);
    assert forall|a: int| 0 <= a < t.len() implies t[a].key@ != e.key@ by {
        if a < i {
            assert(t[a] == s[a]);
            assert(s[a].key@ != s[i].key@);
        } else {
            assert(t[a] == s[a + 1]);
            assert(s[i].key@ != s[a + 1].key@);
        }
    }
    assert forall|a: int, b: int| 0 <= a < b < u.len() implies u[a].key@ != u[b].key@ by {
        if b < t.len() {
            let sa: int = if a < i {
                a
            } else {
                a + 1
            };
            let sb: int = if b < i {
                b
            } else {
                b + 1
            };
            assert(u[a] == s[sa]);
            assert(u[b] == s[sb]);
        }
    }
    assert forall|a: int, b: int| 0 <= a < b < u.len() implies u[a].rid < u[b].rid by {
        if b < t.len() {
            let sa: int = if a < i {
                a
            } else {
                a + 1
            };
            let sb: int = if b < i {
                b
            } else {
                b + 1
            };
            assert(u[a] == s[sa]);
            assert(u[b] == s[sb]);
        } else {
            if a < i {
                assert(u[a] == s[a]);
            } else {
                assert(u[a] == s[a + 1]);
            }
        }
    }
    assert forall|j: int| 0 <= j < u.len() implies u[j].rid < next + 1 by {
        if j < t.len() {
            if j < i {
                assert(u[j] == s[j]);
            } else {
                assert(u[j] == s[j + 1]);
            }
        }
    }
    lemma_key_index_at(u, e.key@, s.len() - 1);
}

/// Appending a freshly minted entry under a key not yet stored keeps the
/// entries well shaped, and the new key lives at the end.
proof fn lemma_append_entry(s: Seq<CacheEntry>, e: CacheEntry, next: u64)
    requires
        keys_distinct(s),
        rids_increasing(s),
        forall|j: int| 0 <= j < s.len() ==> s[j].rid < next,
        !has_key(s, e.key@),
        e.rid == next,
    ensures
        ({
            let u = s.push(e);
            &&& keys_distinct(u)
            &&& rids_increasing(u)
            &&& forall|j: int| 0 <= j < u.len() ==> u[j].rid < next + 1
            &&& sum_sizes(u) == sum_sizes(s) + e.size
            &&& key_index(u, e.key@) == s.len()
        }),
{
    let u = s.push(e);
    lemma_key_index_props(s, e.key@);
    lemma_sum_sizes_push(s, e);
    assert(forall|j: int| 0 <= j < s.len() ==> u[j] == s[j]);
    assert(u[s.len() as int] == e);
    lemma_key_index_at(u, e.key@, s.len() as int);
}

/// Scan for the entry stored under `key`; the returned index is exactly
/// `key_index` of the entry sequence.
fn find_key(entries: &Vec<CacheEntry>, key: &String) -> (r: Option<usize>)
    ensures
        match r {
            Some(i) => has_key(entries@, key@) && i == key_index(entries@, key@),
            None => !has_key(entries@, key@),
        },
{
    let n = entries.len();
    let mut i: usize = 0;
    while i < n
        invariant
            i <= n,
            n == entries@.len(),
            forall|j: int| 0 <= j < i ==> entries@[j].key@ != key@,
        decreases n - i,
    {
        if entries[i].key.eq(key) {
            proof {
                lemma_key_index_at(entries@, key@, i as int);
            }
            return Some(i);
        }
        i = i + 1;
    }
    proof {
        lemma_key_index_absent(entries@, key@);
    }
    None
}

impl Cache {
    /// Commits one fully drained object to the cache: the stale entry
    /// under `key`, if any, is dropped, the object is appended as the
    /// newest entry under a fresh recency identifier, the aggregate size
    /// is adjusted, and the admission gate closes when the new aggregate has reached
    /// the hard limit.  An object larger than the hard limit alone is
    /// refused outright, with nothing changed.
    ///
    /// Callers go through the admission protocol first — `admission`,
    /// suspending via `wait_ready` while the admission gate is closed — so the admission gate
    /// is open when the commit happens.
    pub fn store(&mut self, key: String, val: Vec<u8>, size: u64) -> (r: Result<(), StoreError>)
        requires
            old(self).wf(),
            old(self).gate_open(),
            old(self).next_rid < u64::MAX,
        ensures
            final(self).wf(),
            size > old(self).hard_limit ==> {
                &&& r == Err::<(), StoreError>(StoreError::CapacityUnsatisfiable)
                &&& *final(self) == *old(self)
            },
            size <= old(self).hard_limit ==> {
                &&& r == Ok::<(), StoreError>(())
                &&& final(self).entries@ == after_store(
                    old(self).entries@,
                    (CacheEntry { key, val, size, rid: old(self).next_rid }),
                )
                &&& final(self).agg_size == old(self).agg_size + size - (if has_key(
                    old(self).entries@,
                    key@,
                ) {
                    old(self).entries@[key_index(old(self).entries@, key@)].size as int
                } else {
                    0
                })
                &&& (final(self).gate_open() <==> final(self).agg_size < old(self).hard_limit)
                &&& final(self).next_rid == old(self).next_rid + 1
                &&& final(self).waiters@ == old(self).waiters@
                &&& final(self).next_waiter == old(self).next_waiter
                &&& final(self).soft_limit == old(self).soft_limit
                &&& final(self).hard_limit == old(self).hard_limit
            },
    {
        if size > self.hard_limit {
            return Err(StoreError::CapacityUnsatisfiable);
        }
        let ghost s0 = self.entries@;
        let rid = self.next_rid;
        self.next_rid = rid + 1;
        match find_key(&self.entries, &key) {
            Some(i) => {
                proof {
                    lemma_key_index_props(s0, key@);
                    lemma_sum_sizes_remove(s0, i as int);
                    lemma_sum_sizes_nonneg(s0.remove(i as int));
                    lemma_replace_entry(
                        s0,
                        i as int,
                        (CacheEntry { key: key, val: val, size, rid }),
                        rid,
                    );
                }
                let stale = self.entries.remove(i);
                self.agg_size = self.agg_size - stale.size + size;
                self.entries.push(CacheEntry { key, val, size, rid });
            },
            None => {
                proof {
                    lemma_append_entry(s0, (CacheEntry { key: key, val: val, size, rid }), rid);
                }
                self.agg_size = self.agg_size + size;
                self.entries.push(CacheEntry { key, val, size, rid });
            },
        }
        self.ready = self.agg_size < self.hard_limit;
        Ok(())
    }

    /// Looks `key` up.  A miss returns `None` and changes nothing — a
    /// normal outcome, not an error.  A hit returns a copy of the stored
    /// bytes and refreshes the entry's place in the recency index: the
    /// stale recency record is dropped and the entry is re-indexed as the
    /// newest under a fresh identifier, so the index stays accurate on
    /// reads as well as writes.  The aggregate size and the admission gate are
    /// untouched.
    pub fn retrieve(&mut self, key: &String) -> (r: Option<Vec<u8>>)
        requires
            old(self).wf(),
            old(self).next_rid < u64::MAX,
        ensures
            final(self).wf(),
            !has_key(old(self).entries@, key@) ==> r is None && *final(self) == *old(self),
            has_key(old(self).entries@, key@) ==> ({
                let i = key_index(old(self).entries@, key@);
                let e = old(self).entries@[i];
                &&& r is Some
                &&& r->0@ == e.val@
                &&& live_value(old(self).entries@, key@) == Some(r->0@)
                &&& final(self).entries@ == after_store(
                    old(self).entries@,
                    (CacheEntry { key: e.key, val: e.val, size: e.size, rid: old(self).next_rid }),
                )
                &&& final(self).agg_size == old(self).agg_size
                &&& final(self).ready == old(self).ready
                &&& final(self).next_rid == old(self).next_rid + 1
                &&& final(self).waiters@ == old(self).waiters@
                &&& final(self).next_waiter == old(self).next_waiter
                &&& final(self).soft_limit == old(self).soft_limit
                &&& final(self).hard_limit == old(self).hard_limit
            }),
    {
        let ghost s0 = self.entries@;
        match find_key(&self.entries, key) {
            None => None,
            Some(i) => {
                proof {
                    lemma_key_index_props(s0, key@);
                    lemma_sum_sizes_remove(s0, i as int);
                }
                let stale = self.entries.remove(i);
                let out = clone_bytes(&stale.val);
                let rid = self.next_rid;
                self.next_rid = rid + 1;
                proof {
                    lemma_replace_entry(
                        s0,
                        i as int,
                        (CacheEntry { key: stale.key, val: stale.val, size: stale.size, rid }),
                        rid,
                    );
                }
                self.entries.push(
                    CacheEntry { key: stale.key, val: stale.val, size: stale.size, rid },
                );
                Some(out)
            },
        }
    }

    /// Registers the caller as a waiter on the closed gate and hands back
    /// the waiter's identifier.  The caller suspends on its one-shot
    /// notification outside the engine; the identifier comes back out of
    /// `lru` when the admission gate reopens, and is the handle for deregistering an
    /// abandoned wait.
    pub fn wait_ready(&mut self) -> (id: u64)
        requires
            old(self).wf(),
            old(self).next_waiter < u64::MAX,
        ensures
            final(self).wf(),
            id == old(self).next_waiter,
            final(self).waiters@ == old(self).waiters@.push(id),
            final(self).next_waiter == old(self).next_waiter + 1,
            final(self).entries@ == old(self).entries@,
            final(self).agg_size == old(self).agg_size,
            final(self).ready == old(self).ready,
            final(self).next_rid == old(self).next_rid,
            final(self).soft_limit == old(self).soft_limit,
            final(self).hard_limit == old(self).hard_limit,
    {
        let id = self.next_waiter;
        self.next_waiter = id + 1;
        self.waiters.push(id);
        id
    }

    /// Removes an abandoned waiter — one whose caller timed out or
    /// disconnected — from the registry.  Deregistering an identifier
    /// that is not registered (for instance because a release sweep
    /// already consumed it) is a safe no-op.
    pub fn deregister_waiter(&mut self, id: u64)
        requires
            old(self).wf(),
        ensures
            final(self).wf(),
            !final(self).waiters@.contains(id),
            old(self).waiters@.contains(id) ==> (exists|i: int|
                0 <= i < old(self).waiters@.len() && old(self).waiters@[i] == id
                    && final(self).waiters@ == old(self).waiters@.remove(i)),
            !old(self).waiters@.contains(id) ==> final(self).waiters@ == old(self).waiters@,
            final(self).entries@ == old(self).entries@,
            final(self).agg_size == old(self).agg_size,
            final(self).ready == old(self).ready,
            final(self).next_rid == old(self).next_rid,
            final(self).next_waiter == old(self).next_waiter,
            final(self).soft_limit == old(self).soft_limit,
            final(self).hard_limit == old(self).hard_limit,
    {
        let ghost w0 = old(self).waiters@;
        match find_waiter(&self.waiters, id) {
            None => {},
            Some(i) => {
                self.waiters.remove(i);
                proof {
                    w0.remove_ensures(i as int);
                    assert forall|j: int| 0 <= j < self.waiters@.len() implies self.waiters@[j]
                        != id by {
                        if j >= i {
                            assert(self.waiters@[j] == w0[j + 1]);
                            assert(old(self).waiters@[i as int] != old(self).waiters@[j + 1]);
                        }
                    }
                }
            },
        }
    }
}

/// Scan for `id` in the waiter registry.
fn find_waiter(ws: &Vec<u64>, id: u64) -> (r: Option<usize>)
    ensures
        match r {
            Some(i) => {
                &&& i < ws@.len()
                &&& ws@[i as int] == id
                &&& forall|j: int| 0 <= j < i ==> ws@[j] != id
            },
            None => forall|j: int| 0 <= j < ws@.len() ==> ws@[j] != id,
        },
{
    let n = ws.len();
    let mut i: usize = 0;
    while i < n
        invariant
            i <= n,
            n == ws@.len(),
            forall|j: int| 0 <= j < i ==> ws@[j] != id,
        decreases n - i,
    {
        if ws[i] == id {
            return Some(i);
        }
        i = i + 1;
    }
    None
}

impl Cache {
    /// The eviction pass.  It walks the recency index oldest-first,
    /// removing entries — index record, store entry and aggregate size
    /// together — until the aggregate is at or below the soft limit or
    /// nothing is left; it stops as soon as the threshold is crossed and
    /// never over-evicts.  The pass always leaves the admission gate open, and when
    /// it found the admission gate closed — aggregate at or past the hard limit —
    /// the reopening releases every registered waiter: their identifiers
    /// are handed back for notification, in no particular order, and the
    /// registry is cleared in the same step.  A waiter registered after
    /// this pass began is picked up by the next pass, never by this one.
    pub fn lru(&mut self) -> (released: Vec<u64>)
        requires
            old(self).wf(),
        ensures
            final(self).wf(),
            final(self).entries@ == old(self).entries@.skip(
                evict_count(old(self).entries@, old(self).soft_limit as int),
            ),
            final(self).agg_size <= old(self).soft_limit || final(self).entries@.len() == 0,
            final(self).gate_open(),
            !old(self).gate_open() ==> released@ == old(self).waiters@ && final(self).waiters@
                == Seq::<u64>::empty(),
            old(self).gate_open() ==> released@ == Seq::<u64>::empty() && final(self).waiters@
                == old(self).waiters@,
            final(self).agg_size == sum_sizes(final(self).entries@),
            final(self).next_rid == old(self).next_rid,
            final(self).next_waiter == old(self).next_waiter,
            final(self).soft_limit == old(self).soft_limit,
            final(self).hard_limit == old(self).hard_limit,
    {
        let was_open = self.ready;
        let ghost s0 = self.entries@;
        let ghost target = self.soft_limit as int;
        let ghost mut j: int = 0;
        while self.agg_size > self.soft_limit && self.entries.len() > 0
            invariant
                0 <= j <= s0.len(),
                self.entries@ == s0.skip(j),
                self.agg_size == sum_sizes(self.entries@),
                evict_count(s0, target) == j + evict_count(self.entries@, target),
                keys_distinct(self.entries@),
                rids_increasing(self.entries@),
                forall|k: int|
                    0 <= k < self.entries@.len() ==> self.entries@[k].rid < self.next_rid,
                forall|k: int|
                    0 <= k < self.entries@.len() ==> self.entries@[k].size <= self.hard_limit,
                self.ready == old(self).ready,
                self.waiters@ == old(self).waiters@,
                self.next_rid == old(self).next_rid,
                self.next_waiter == old(self).next_waiter,
                self.soft_limit == old(self).soft_limit,
                self.hard_limit == old(self).hard_limit,
                target == self.soft_limit as int,
            decreases self.entries@.len(),
        {
            let ghost cur = self.entries@;
            proof {
                lemma_sum_sizes_first(cur);
                lemma_sum_sizes_nonneg(cur.drop_first());
                assert(evict_count(cur, target) == 1 + evict_count(cur.drop_first(), target));
                assert(cur.drop_first() =~= s0.skip(j + 1));
                assert(forall|k: int|
                    0 <= k < cur.len() - 1 ==> cur.drop_first()[k] == cur[k + 1]);
            }
            let dead = self.entries.remove(0);
            self.agg_size = self.agg_size - dead.size;
            proof {
                j = j + 1;
            }
        }
        proof {
            assert(evict_count(self.entries@, target) == 0);
            assert(s0.skip(evict_count(s0, target)) == self.entries@);
        }
        self.ready = true;
        let mut released: Vec<u64> = Vec::new();
        if !was_open {
            core::mem::swap(&mut released, &mut self.waiters);
        }
        released
    }

    /// The keys of the live entries in recency order, oldest-accessed
    /// first: the order an eviction pass would remove them in.
    pub fn recency_order(&self) -> (r: Vec<String>)
        ensures
            r@.len() == self.entries@.len(),
            forall|i: int| 0 <= i < r@.len() ==> r@[i]@ == self.entries@[i].key@,
    {
        let n = self.entries.len();
        let mut r: Vec<String> = Vec::new();
        let mut i: usize = 0;
        while i < n
            invariant
                i <= n,
                n == self.entries@.len(),
                r@.len() == i,
                forall|j: int| 0 <= j < i ==> r@[j]@ == self.entries@[j].key@,
            decreases n - i,
        {
            r.push(self.entries[i].key.clone());
            i = i + 1;
        }
        r
    }
}

/// The aggregate size a well-formed cache tracks always equals the sum of
/// the currently-live entries' sizes, and that sum is never negative.
/// Every operation of the engine preserves well-formedness, so this holds
/// after any sequence of operations.
pub proof fn lemma_aggregate_size_is_sum(c: Cache)
    requires
        c.wf(),
    ensures
        c.agg_size == sum_sizes(c.entries@),
        sum_sizes(c.entries@) >= 0,
{
    lemma_sum_sizes_nonneg(c.entries@);
}

/// The bijection invariant: in a well-formed cache every live key is
/// stored exactly once, and every recency identifier indexes exactly one
/// entry.  Object store and recency index can never disagree, because one
/// recency-ordered sequence is both.
pub proof fn lemma_bijection(c: Cache)
    requires
        c.wf(),
    ensures
        keys_distinct(c.entries@),
        rids_increasing(c.entries@),
        forall|i: int, j: int|
            0 <= i < c.entries@.len() && 0 <= j < c.entries@.len() && i != j ==> c.entries@[i].rid
                != c.entries@[j].rid,
{
    assert forall|i: int, j: int|
        0 <= i < c.entries@.len() && 0 <= j < c.entries@.len() && i != j implies c.entries@[i].rid
        != c.entries@[j].rid by {
        if i < j {
            assert(c.entries@[i].rid < c.entries@[j].rid);
        } else {
            assert(c.entries@[j].rid < c.entries@[i].rid);
        }
    }
}

/// A store of `e` followed immediately by a retrieve of `e`'s key — no
/// eviction in between — returns exactly `e`'s bytes: in the entry
/// sequence a completed store leaves behind, `e`'s key is live and holds
/// `e`'s value.
pub proof fn lemma_store_then_retrieve(s: Seq<CacheEntry>, e: CacheEntry)
    requires
        keys_distinct(s),
    ensures
        live_value(after_store(s, e), e.key@) == Some(e.val@),
{
    let u = after_store(s, e);
    lemma_key_index_props(s, e.key@);
    if has_key(s, e.key@) {
        let i = key_index(s, e.key@);
        let t = s.remove(i);
        s.remove_ensures(i);
        assert forall|a: int| 0 <= a < t.len() implies t[a].key@ != e.key@ by {
            if a < i {
                assert(t[a] == s[a]);
            } else {
                assert(t[a] == s[a + 1]);
            }
        }
        lemma_key_index_at(u, e.key@, u.len() - 1);
    } else {
        assert(forall|a: int| 0 <= a < s.len() ==> u[a] == s[a]);
        lemma_key_index_at(u, e.key@, u.len() - 1);
    }
}

/// Storing under an already-live key replaces the old entry: afterwards
/// the key is live exactly once, and the aggregate reflects only the new
/// size — the old entry's size is gone from the sum.
pub proof fn lemma_overwrite_single_entry(s: Seq<CacheEntry>, e: CacheEntry)
    requires
        keys_distinct(s),
        rids_increasing(s),
        has_key(s, e.key@),
        forall|j: int| 0 <= j < s.len() ==> s[j].rid < e.rid,
    ensures
        has_key(after_store(s, e), e.key@),
        keys_distinct(after_store(s, e)),
        sum_sizes(after_store(s, e)) == sum_sizes(s) - s[key_index(s, e.key@)].size + e.size,
{
    lemma_key_index_props(s, e.key@);
    lemma_replace_entry(s, key_index(s, e.key@), e, e.rid);
}

/// An eviction pass toward `target` is exact: it stops as soon as the
/// summed sizes reach the target — removing one entry fewer would leave
/// the sum above it — and removes everything only when even that cannot
/// reach the target.
pub proof fn lemma_no_over_eviction(s: Seq<CacheEntry>, target: int)
    requires
        target >= 0,
    ensures
        0 <= evict_count(s, target) <= s.len(),
        sum_sizes(s.skip(evict_count(s, target))) <= target || evict_count(s, target) == s.len(),
        evict_count(s, target) > 0 ==> sum_sizes(s.skip(evict_count(s, target) - 1)) > target,
    decreases s.len(),
{
    if sum_sizes(s) <= target {
        assert(s.skip(0) =~= s);
    } else if s.len() == 0 {
    } else {
        let d = s.drop_first();
        lemma_no_over_eviction(d, target);
        let kd = evict_count(d, target);
        assert(evict_count(s, target) == 1 + kd);
        assert(s.skip(1 + kd) =~= d.skip(kd));
        if kd > 0 {
            assert(s.skip(kd) =~= d.skip(kd - 1));
        } else {
            assert(s.skip(0) =~= s);
        }
        if kd == d.len() {
            assert(s.skip(1 + kd) =~= d.skip(kd));
        }
    }
}

/// Copies a byte buffer; the copy holds exactly the same bytes.
fn clone_bytes(v: &Vec<u8>) -> (r: Vec<u8>)
    ensures
        r@ == v@,
{
    let n = v.len();
    let mut r: Vec<u8> = Vec::new();
    let mut i: usize = 0;
    while i < n
        invariant
            i <= n,
            n == v@.len(),
            r@ == v@.subrange(0, i as int),
        decreases n - i,
    {
        r.push(v[i]);
        proof {
            assert(r@ =~= v@.subrange(0, i + 1));
        }
        i = i + 1;
    }
    proof {
        assert(v@.subrange(0, n as int) =~= v@);
    }
    r
}

} // verus!
