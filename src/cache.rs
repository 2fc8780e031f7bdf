use std::sync::Arc;
use vstd::prelude::*;
use vstd::set::fold::{is_fun_commutative, lemma_fold_empty, lemma_fold_insert};

use crate::frame::{
    dummy_frame, frame_byte_size, frame_bytes, frame_size_ok, generate_dummy_frame, MAX_FRAME_BYTES,
};
use crate::future::ManualFuture;

verus! {

/// One cached buffer: a frame index at a resolution.
#[derive(Clone, Copy, Debug, PartialEq, Eq, Structural)]
pub struct FrameKey {
    pub index: u64,
    pub width: u32,
    pub height: u32,
}

/// A request to decode one frame, stamped with the generation of the request
/// that asked for it.
#[derive(Clone, Copy, Debug, PartialEq, Eq, Structural)]
pub struct DecodeTask {
    pub key: FrameKey,
    pub generation: u64,
}

/// The byte meter shared by every cache of a process: what all caches hold
/// together, and the budget it is held to. The total is wider than the
/// budget: each cache may keep one frame beyond it.
pub struct CapacityMeter {
    pub total: u128,
    pub max: u64,
}

/// What a cache entry is, seen from outside.
pub struct EntryView {
    pub ready: bool,
    pub value: Option<Seq<u8>>,
    pub byte_size: int,
    pub generation: int,
    pub last_access: int,
}

/// A cached frame: the future its waiters share, and its bookkeeping.
pub struct CacheEntry {
    key: FrameKey,
    future: ManualFuture<Vec<u8>>,
    ready: bool,
    byte_size: u64,
    generation: u64,
    last_access: u64,
}

impl CacheEntry {
    pub closed spec fn key_spec(&self) -> FrameKey {
        self.key
    }

    pub closed spec fn view(&self) -> EntryView {
        EntryView {
            ready: self.ready,
            value: match self.future@ {
                Some(v) => Some(v@),
                None => None,
            },
            byte_size: self.byte_size as int,
            generation: self.generation as int,
            last_access: self.last_access as int,
        }
    }

    pub closed spec fn wf(&self) -> bool {
        &&& self.ready == (self.future@ is Some)
        &&& frame_size_ok(self.key.width, self.key.height)
        &&& self.byte_size == frame_bytes(self.key.width as int, self.key.height as int)
        &&& (self.future@ is Some ==> self.future@->0@.len() == self.byte_size)
    }
}

/// The keys of a sequence of entries are distinct.
pub open spec fn keys_unique(s: Seq<CacheEntry>) -> bool {
    forall|i: int, j: int|
        0 <= i < s.len() && 0 <= j < s.len() && i != j ==> s[i].key_spec() != s[j].key_spec()
}

pub open spec fn has_key(s: Seq<CacheEntry>, k: FrameKey) -> bool {
    exists|i: int| 0 <= i < s.len() && s[i].key_spec() == k
}

/// The entries as a map from key to entry.
pub open spec fn entry_map(s: Seq<CacheEntry>) -> Map<FrameKey, EntryView> {
    Map::new(
        |k: FrameKey| has_key(s, k),
        |k: FrameKey| s[choose|i: int| 0 <= i < s.len() && s[i].key_spec() == k].view(),
    )
}

/// Bytes held by a sequence of entries.
pub open spec fn sum_sizes(s: Seq<CacheEntry>) -> int
    decreases s.len(),
{
    if s.len() == 0 {
        0
    } else {
        sum_sizes(s.drop_last()) + s.last().view().byte_size
    }
}

/// Bytes of one frame of the resolution a key names.
pub open spec fn key_bytes(k: FrameKey) -> int {
    frame_bytes(k.width as int, k.height as int)
}

pub open spec fn add_key_bytes() -> spec_fn(int, FrameKey) -> int {
    |acc: int, k: FrameKey| acc + key_bytes(k)
}

/// Bytes held by the entries of a set of keys: each key holds one frame of
/// its resolution.
pub open spec fn keys_bytes(keys: Set<FrameKey>) -> int {
    keys.fold(0, add_key_bytes())
}

proof fn lemma_add_key_bytes_commutative()
    ensures
        is_fun_commutative(add_key_bytes()),
{
    assert forall|a1: FrameKey, a2: FrameKey, b: int|
        #[trigger] (add_key_bytes())((add_key_bytes())(b, a2), a1) == (add_key_bytes())((add_key_bytes())(b, a1), a2) by {
    }
}

/// Adding a key adds its frame's bytes.
pub proof fn lemma_keys_bytes_insert(keys: Set<FrameKey>, k: FrameKey)
    requires
        keys.finite(),
        !keys.contains(k),
    ensures
        keys_bytes(keys.insert(k)) == keys_bytes(keys) + key_bytes(k),
{
    lemma_add_key_bytes_commutative();
    lemma_fold_insert(keys, 0, add_key_bytes(), k);
}

/// Taking a key out takes its frame's bytes out.
pub proof fn lemma_keys_bytes_remove(keys: Set<FrameKey>, k: FrameKey)
    requires
        keys.finite(),
        keys.contains(k),
    ensures
        keys_bytes(keys.remove(k)) == keys_bytes(keys) - key_bytes(k),
{
    lemma_keys_bytes_insert(keys.remove(k), k);
    assert(keys.remove(k).insert(k) =~= keys);
}

/// Keys that all name frames of `b` bytes hold `b` bytes each.
pub proof fn lemma_keys_bytes_uniform(keys: Set<FrameKey>, b: int)
    requires
        keys.finite(),
        forall|k: FrameKey| #[trigger] keys.contains(k) ==> key_bytes(k) == b,
    ensures
        keys_bytes(keys) == keys.len() * b,
    decreases keys.len(),
{
    if keys.len() == 0 {
        assert(keys =~= Set::empty());
        lemma_keys_bytes_empty();
    } else {
        let k = keys.choose();
        lemma_keys_bytes_remove(keys, k);
        lemma_keys_bytes_uniform(keys.remove(k), b);
        assert((keys.len() - 1) * b + b == keys.len() * b) by (nonlinear_arith);
    }
}

pub proof fn lemma_keys_bytes_empty()
    ensures
        keys_bytes(Set::<FrameKey>::empty()) == 0,
{
    lemma_fold_empty(0, add_key_bytes());
}

/// The entries of a well-formed sequence form a finite map whose entries
/// each hold one frame of their key's resolution, and together hold the
/// sequence's bytes.
proof fn lemma_entry_bytes(s: Seq<CacheEntry>)
    requires
        keys_unique(s),
        forall|i: int| 0 <= i < s.len() ==> #[trigger] s[i].wf(),
    ensures
        entry_map(s).dom().finite(),
        sum_sizes(s) == keys_bytes(entry_map(s).dom()),
    decreases s.len(),
{
    if s.len() == 0 {
        assert(entry_map(s).dom() =~= Set::empty());
        lemma_keys_bytes_empty();
    } else {
        let t = s.drop_last();
        let e = s.last();
        assert forall|a: int, b: int| 0 <= a < t.len() && 0 <= b < t.len() && a != b implies t[a].key_spec()
            != t[b].key_spec() by {
            assert(t[a] == s[a] && t[b] == s[b]);
        }
        assert forall|i: int| 0 <= i < t.len() implies #[trigger] t[i].wf() by {
            assert(t[i] == s[i]);
        }
        lemma_entry_bytes(t);
        if has_key(t, e.key_spec()) {
            let j = choose|j: int| 0 <= j < t.len() && t[j].key_spec() == e.key_spec();
            assert(s[j].key_spec() == s[s.len() - 1].key_spec());
        }
        lemma_map_push(t, e);
        assert(t.push(e) =~= s);
        assert(entry_map(s).dom() =~= entry_map(t).dom().insert(e.key_spec()));
        lemma_keys_bytes_insert(entry_map(t).dom(), e.key_spec());
        assert(s[s.len() - 1].wf());
    }
}

proof fn lemma_lookup(s: Seq<CacheEntry>, i: int)
    requires
        keys_unique(s),
        0 <= i < s.len(),
    ensures
        entry_map(s).contains_key(s[i].key_spec()),
        entry_map(s)[s[i].key_spec()] == s[i].view(),
{
    let k = s[i].key_spec();
    assert(has_key(s, k));
    let j = choose|j: int| 0 <= j < s.len() && s[j].key_spec() == k;
    assert(j == i);
}

proof fn lemma_map_remove(s: Seq<CacheEntry>, i: int)
    requires
        keys_unique(s),
        0 <= i < s.len(),
    ensures
        keys_unique(s.remove(i)),
        entry_map(s.remove(i)) == entry_map(s).remove(s[i].key_spec()),
{
    let t = s.remove(i);
    let k = s[i].key_spec();
    assert forall|a: int, b: int| 0 <= a < t.len() && 0 <= b < t.len() && a != b
        implies t[a].key_spec() != t[b].key_spec() by {
        let a0 = if a < i { a } else { a + 1 };
        let b0 = if b < i { b } else { b + 1 };
        assert(t[a] == s[a0] && t[b] == s[b0]);
    }
    assert forall|q: FrameKey| #[trigger] entry_map(t).contains_key(q) <==> entry_map(s).remove(k).contains_key(q) by {
        if has_key(t, q) {
            let a = choose|a: int| 0 <= a < t.len() && t[a].key_spec() == q;
            let a0 = if a < i { a } else { a + 1 };
            assert(t[a] == s[a0]);
        }
        if has_key(s, q) && q != k {
            let a0 = choose|a: int| 0 <= a < s.len() && s[a].key_spec() == q;
            let a = if a0 < i { a0 } else { a0 - 1 };
            assert(t[a] == s[a0]);
        }
    }
    assert forall|q: FrameKey| #[trigger] entry_map(t).contains_key(q) implies entry_map(t)[q]
        == entry_map(s).remove(k)[q] by {
        let a = choose|a: int| 0 <= a < t.len() && t[a].key_spec() == q;
        let a0 = if a < i { a } else { a + 1 };
        assert(t[a] == s[a0]);
        lemma_lookup(t, a);
        lemma_lookup(s, a0);
    }
    assert(entry_map(t) =~= entry_map(s).remove(k));
}

proof fn lemma_map_push(s: Seq<CacheEntry>, e: CacheEntry)
    requires
        keys_unique(s),
        !has_key(s, e.key_spec()),
    ensures
        keys_unique(s.push(e)),
        entry_map(s.push(e)) == entry_map(s).insert(e.key_spec(), e.view()),
{
    let t = s.push(e);
    assert forall|a: int, b: int| 0 <= a < t.len() && 0 <= b < t.len() && a != b
        implies t[a].key_spec() != t[b].key_spec() by {
        if a == s.len() {
            assert(t[b] == s[b]);
        } else if b == s.len() {
            assert(t[a] == s[a]);
        } else {
            assert(t[a] == s[a] && t[b] == s[b]);
        }
    }
    assert forall|q: FrameKey| #[trigger] entry_map(t).contains_key(q) <==> entry_map(s).insert(
        e.key_spec(),
        e.view(),
    ).contains_key(q) by {
        if has_key(t, q) && q != e.key_spec() {
            let a = choose|a: int| 0 <= a < t.len() && t[a].key_spec() == q;
            assert(t[a] == s[a]);
        }
        if has_key(s, q) {
            let a = choose|a: int| 0 <= a < s.len() && s[a].key_spec() == q;
            assert(t[a] == s[a]);
        }
        if q == e.key_spec() {
            assert(t[s.len() as int] == e);
        }
    }
    assert forall|q: FrameKey| #[trigger] entry_map(t).contains_key(q) implies entry_map(t)[q]
        == entry_map(s).insert(e.key_spec(), e.view())[q] by {
        let a = choose|a: int| 0 <= a < t.len() && t[a].key_spec() == q;
        lemma_lookup(t, a);
        if a < s.len() {
            assert(t[a] == s[a]);
            lemma_lookup(s, a);
        }
    }
    assert(entry_map(t) =~= entry_map(s).insert(e.key_spec(), e.view()));
}

proof fn lemma_map_update(s: Seq<CacheEntry>, i: int, e: CacheEntry)
    requires
        keys_unique(s),
        0 <= i < s.len(),
        e.key_spec() == s[i].key_spec(),
    ensures
        keys_unique(s.update(i, e)),
        entry_map(s.update(i, e)) == entry_map(s).insert(e.key_spec(), e.view()),
{
    let t = s.update(i, e);
    assert forall|a: int, b: int| 0 <= a < t.len() && 0 <= b < t.len() && a != b
        implies t[a].key_spec() != t[b].key_spec() by {
        assert(t[a].key_spec() == s[a].key_spec() && t[b].key_spec() == s[b].key_spec());
    }
    assert forall|q: FrameKey| #[trigger] entry_map(t).contains_key(q) <==> entry_map(s).insert(
        e.key_spec(),
        e.view(),
    ).contains_key(q) by {
        if has_key(t, q) {
            let a = choose|a: int| 0 <= a < t.len() && t[a].key_spec() == q;
            assert(t[a].key_spec() == s[a].key_spec());
        }
        if has_key(s, q) {
            let a = choose|a: int| 0 <= a < s.len() && s[a].key_spec() == q;
            assert(t[a].key_spec() == s[a].key_spec());
        }
        if q == e.key_spec() {
            assert(t[i] == e);
        }
    }
    assert forall|q: FrameKey| #[trigger] entry_map(t).contains_key(q) implies entry_map(t)[q]
        == entry_map(s).insert(e.key_spec(), e.view())[q] by {
        let a = choose|a: int| 0 <= a < t.len() && t[a].key_spec() == q;
        lemma_lookup(t, a);
        if a != i {
            lemma_lookup(s, a);
        }
    }
    assert(entry_map(t) =~= entry_map(s).insert(e.key_spec(), e.view()));
}

proof fn lemma_sum_remove(s: Seq<CacheEntry>, i: int)
    requires
        0 <= i < s.len(),
    ensures
        sum_sizes(s.remove(i)) == sum_sizes(s) - s[i].view().byte_size,
    decreases s.len(),
{
    if i == s.len() - 1 {
        assert(s.remove(i) =~= s.drop_last());
    } else {
        let t = s.remove(i);
        lemma_sum_remove(s.drop_last(), i);
        assert(t.drop_last() =~= s.drop_last().remove(i));
        assert(t.last() == s.last());
    }
}

proof fn lemma_sum_update(s: Seq<CacheEntry>, i: int, e: CacheEntry)
    requires
        0 <= i < s.len(),
        e.view().byte_size == s[i].view().byte_size,
    ensures
        sum_sizes(s.update(i, e)) == sum_sizes(s),
    decreases s.len(),
{
    let t = s.update(i, e);
    if i == s.len() - 1 {
        assert(t.drop_last() =~= s.drop_last());
    } else {
        lemma_sum_update(s.drop_last(), i, e);
        assert(t.drop_last() =~= s.drop_last().update(i, e));
    }
}

proof fn lemma_sum_nonneg(s: Seq<CacheEntry>)
    ensures
        sum_sizes(s) >= 0,
    decreases s.len(),
{
    if s.len() > 0 {
        lemma_sum_nonneg(s.drop_last());
    }
}

/// What a single decoder's cache may look like after eviction: a subset of
/// `before` with the same entries, `keep` still there if it was, every entry
/// that left no more recently used than any other that stayed, and the meter
/// at or under budget unless nothing but `keep` is left. The meter falls by
/// exactly the bytes of the entries that left. Eviction stops as soon as the
/// meter is within budget: putting back the most recently used of the
/// entries that left would bring it over.
pub open spec fn evicted_from(
    before: Map<FrameKey, EntryView>,
    after: Map<FrameKey, EntryView>,
    keep: FrameKey,
    total_before: int,
    total_after: int,
    max: int,
) -> bool {
    &&& after.dom().subset_of(before.dom())
    &&& forall|k: FrameKey| #[trigger] after.contains_key(k) ==> after[k] == before[k]
    &&& before.contains_key(keep) ==> after.contains_key(keep)
    &&& total_after <= max || after.dom().subset_of(set![keep])
    &&& total_before <= max ==> after == before
    &&& forall|r: FrameKey, k: FrameKey|
        before.contains_key(r) && !after.contains_key(r) && #[trigger] after.contains_key(k) && k
            != keep ==> #[trigger] before[r].last_access <= before[k].last_access
    &&& total_after == total_before - (keys_bytes(before.dom()) - keys_bytes(after.dom()))
    &&& after != before ==> exists|r: FrameKey|
        #![trigger before[r]]
        before.contains_key(r) && !after.contains_key(r) && total_after + before[r].byte_size > max
            && forall|q: FrameKey|
            before.contains_key(q) && !after.contains_key(q) ==> #[trigger] before[q].last_access
                <= before[r].last_access
}

/// The entry for `key` once a request with generation `gen` has touched it:
/// an existing entry is marked used at `gen`, and a pending one takes the
/// request's generation; a missing one is created pending.
pub open spec fn requested_entry(
    m: Map<FrameKey, EntryView>,
    key: FrameKey,
    gen: int,
) -> EntryView {
    if m.contains_key(key) {
        let e = m[key];
        EntryView {
            last_access: gen,
            generation: if e.ready {
                e.generation
            } else {
                gen
            },
            ..e
        }
    } else {
        EntryView {
            ready: false,
            value: None,
            byte_size: frame_bytes(key.width as int, key.height as int),
            generation: gen,
            last_access: gen,
        }
    }
}

/// The bytes a finished decode leaves in the cache: the decoded frame when it
/// has the frame's size, the dummy frame otherwise.
pub open spec fn stored_frame(decoded: Result<Seq<u8>, Seq<char>>, key: FrameKey) -> Seq<u8> {
    let w = key.width as int;
    let h = key.height as int;
    match decoded {
        Ok(b) => if b.len() == frame_bytes(w, h) {
            b
        } else {
            dummy_frame(w, h)
        },
        Err(_) => dummy_frame(w, h),
    }
}

/// Whether a finished decode of `task` updates the cache: it does unless a
/// newer request has raised the entry's generation meanwhile.
pub open spec fn completion_applies(m: Map<FrameKey, EntryView>, task: DecodeTask) -> bool {
    !m.contains_key(task.key) || task.generation >= m[task.key].generation
}

/// The entries after a finished decode of `task` that left `frame`, at
/// generation counter `now`. A ready entry keeps its bytes.
pub open spec fn completed_map(
    m: Map<FrameKey, EntryView>,
    task: DecodeTask,
    frame: Seq<u8>,
    now: int,
) -> Map<FrameKey, EntryView> {
    if !completion_applies(m, task) {
        m
    } else if m.contains_key(task.key) {
        let e = m[task.key];
        m.insert(
            task.key,
            EntryView {
                ready: true,
                value: if e.ready {
                    e.value
                } else {
                    Some(frame)
                },
                generation: task.generation as int,
                last_access: now,
                ..e
            },
        )
    } else {
        m.insert(
            task.key,
            EntryView {
                ready: true,
                value: Some(frame),
                byte_size: frame_bytes(task.key.width as int, task.key.height as int),
                generation: task.generation as int,
                last_access: now,
            },
        )
    }
}

/// The view of a decode result.
pub open spec fn decoded_view(decoded: Result<Vec<u8>, String>) -> Result<Seq<u8>, Seq<char>> {
    match decoded {
        Ok(b) => Ok(b@),
        Err(e) => Err(e@),
    }
}

/// What a waiter finds when it looks at its frame.
pub enum FramePoll {
    /// The frame is there.
    Ready(Arc<Vec<u8>>),
    /// A decode for the frame is queued or running.
    Waiting,
    /// Nothing will complete the frame: request it again.
    Missing,
}

/// What a request for frame `index` at `width` x `height` does to a cache
/// `d0` and the meter total `t0`, giving `d1`, `t1` and the result `r`. A
/// hit only marks the entry used; a miss inserts a pending entry and evicts.
/// The pending keys are exactly those that were pending, less the key of a
/// task the request displaced, plus the requested key when it is not ready,
/// among the entries that are left.
pub open spec fn request_post(
    d0: CachedDecoder,
    d1: CachedDecoder,
    t0: int,
    t1: int,
    max: int,
    width: u32,
    height: u32,
    index: u64,
    r: Option<u64>,
) -> bool {
    &&& t1 == t0 - d0.held_bytes() + d1.held_bytes()
    &&& d1.held_bytes() <= CachedDecoder::held_bound(max)
    &&& d1.path_spec() == d0.path_spec()
    &&& d1.width_spec() == d0.width_spec()
    &&& d1.height_spec() == d0.height_spec()
    &&& d1.last_started_spec() == d0.last_started_spec()
    &&& d0.generation_spec() == u64::MAX ==> r is None && d1 == d0 && t1 == t0
    &&& d0.generation_spec() < u64::MAX ==> ({
        let gen = d0.generation_spec() + 1;
        let key = FrameKey { index, width, height };
        let m = d0.entries_map();
        let e = requested_entry(m, key, gen);
        &&& r == Some(gen as u64)
        &&& d1.generation_spec() == gen
        &&& m.contains_key(key) ==> d1.entries_map() == m.insert(key, e) && t1 == t0
        &&& !m.contains_key(key) ==> evicted_from(m.insert(key, e), d1.entries_map(), key, t0 + e.byte_size, t1, max)
        &&& d1.entries_map().contains_key(key)
        &&& d1.entries_map()[key] == e
        &&& e.ready ==> d1.latest_task_spec() == d0.latest_task_spec()
        &&& !e.ready ==> d1.latest_task_spec() == Some(DecodeTask { key, generation: gen as u64 })
        &&& forall|q: FrameKey| #[trigger]
            d1.pending_set().contains(q) <==> d1.entries_map().contains_key(q) && ((q == key && !e.ready) || (
            d0.pending_set().contains(q) && !displaced(d0, key, e.ready, q)))
    })
}

/// Whether a request for `key` takes `q`'s task out of the high-priority
/// slot: it does when the request schedules a task and the slot held one
/// for another key `q`.
pub open spec fn displaced(d0: CachedDecoder, key: FrameKey, ready: bool, q: FrameKey) -> bool {
    &&& !ready
    &&& q != key
    &&& d0.latest_task_spec() is Some
    &&& d0.latest_task_spec()->0.key == q
}

/// What taking the high-priority task does to a cache: the task goes to the
/// worker only if no later request has come and its frame is not there yet;
/// otherwise it is dropped and its key leaves the pending set. A task handed
/// out carries a generation above that of every task handed out before.
pub open spec fn next_task_post(d0: CachedDecoder, d1: CachedDecoder, r: Option<DecodeTask>) -> bool {
    &&& d1.latest_task_spec() is None
    &&& d1.entries_map() == d0.entries_map()
    &&& d1.generation_spec() == d0.generation_spec()
    &&& d1.held_bytes() == d0.held_bytes()
    &&& d1.path_spec() == d0.path_spec()
    &&& d1.width_spec() == d0.width_spec()
    &&& d1.height_spec() == d0.height_spec()
    &&& match r {
        Some(t) => {
            &&& t.generation > d0.last_started_spec()
            &&& d1.last_started_spec() == t.generation
            &&& t.generation <= d1.generation_spec()
            &&& frame_size_ok(t.key.width, t.key.height)
        },
        None => d1.last_started_spec() == d0.last_started_spec(),
    }
    &&& match d0.latest_task_spec() {
        None => r is None && d1.pending_set() == d0.pending_set(),
        Some(t) => if t.generation == d0.generation_spec() && !(d0.entries_map().contains_key(t.key)
            && d0.entries_map()[t.key].ready) {
            r == Some(t) && d1.pending_set() == d0.pending_set()
        } else {
            r is None && d1.pending_set() == d0.pending_set().remove(t.key)
        },
    }
}

/// What storing the outcome `decoded` of `task` does to a cache `d0` and the
/// meter total `t0`.
pub open spec fn completion_post(
    d0: CachedDecoder,
    d1: CachedDecoder,
    t0: int,
    t1: int,
    max: int,
    task: DecodeTask,
    decoded: Result<Seq<u8>, Seq<char>>,
) -> bool {
    let m = d0.entries_map();
    let applies = completion_applies(m, task);
    let m1 = completed_map(m, task, stored_frame(decoded, task.key), d0.generation_spec());
    &&& t1 == t0 - d0.held_bytes() + d1.held_bytes()
    &&& d1.held_bytes() <= CachedDecoder::held_bound(max)
    &&& d1.path_spec() == d0.path_spec()
    &&& d1.width_spec() == d0.width_spec()
    &&& d1.height_spec() == d0.height_spec()
    &&& d1.generation_spec() == d0.generation_spec()
    &&& d1.last_started_spec() == d0.last_started_spec()
    &&& d1.latest_task_spec() == d0.latest_task_spec()
    &&& evicted_from(
        m1,
        d1.entries_map(),
        task.key,
        t0 + (if m.contains_key(task.key) { 0 } else { m1[task.key].byte_size }),
        t1,
        max,
    )
    &&& applies ==> d1.entries_map().contains_key(task.key)
    &&& forall|q: FrameKey| #[trigger]
        d1.pending_set().contains(q) <==> d1.entries_map().contains_key(q) && d0.pending_set().contains(q)
            && !(applies && q == task.key)
}

/// What a periodic eviction step does to a cache `d0` and the meter total
/// `t0`: it evicts as a request would, keeping `kept`, the most recently used
/// entry; with no entries it changes nothing.
pub open spec fn collect_post(
    d0: CachedDecoder,
    d1: CachedDecoder,
    t0: int,
    t1: int,
    max: int,
    kept: Option<FrameKey>,
) -> bool {
    &&& d1.held_bytes() <= CachedDecoder::held_bound(max)
    &&& t1 == t0 - d0.held_bytes() + d1.held_bytes()
    &&& d1.path_spec() == d0.path_spec()
    &&& d1.width_spec() == d0.width_spec()
    &&& d1.height_spec() == d0.height_spec()
    &&& d1.generation_spec() == d0.generation_spec()
    &&& d1.last_started_spec() == d0.last_started_spec()
    &&& d1.latest_task_spec() == d0.latest_task_spec()
    &&& forall|q: FrameKey| #[trigger]
        d1.pending_set().contains(q) <==> d0.pending_set().contains(q) && d1.entries_map().contains_key(q)
    &&& match kept {
        None => d0.entries_map().is_empty() && d1.entries_map() == d0.entries_map() && t1 == t0,
        Some(k) => {
            &&& d0.entries_map().contains_key(k)
            &&& forall|q: FrameKey| #[trigger] d0.entries_map().contains_key(q) ==> d0.entries_map()[q].last_access
                <= d0.entries_map()[k].last_access
            &&& evicted_from(d0.entries_map(), d1.entries_map(), k, t0, t1, max)
        },
    }
}

/// The cache of one video file: its entries, the keys being decoded, the one
/// waiting high-priority task, and the generation counter.
pub struct CachedDecoder {
    path: String,
    width: u32,
    height: u32,
    entries: Vec<CacheEntry>,
    pending: Vec<FrameKey>,
    latest_task: Option<DecodeTask>,
    generation: u64,
    last_started: u64,
    held: u128,
}

impl CachedDecoder {
    pub closed spec fn entries_map(&self) -> Map<FrameKey, EntryView> {
        entry_map(self.entries@)
    }

    /// Keys whose decode task is queued or running.
    pub closed spec fn pending_set(&self) -> Set<FrameKey> {
        Set::new(|k: FrameKey| self.pending@.contains(k))
    }

    pub closed spec fn latest_task_spec(&self) -> Option<DecodeTask> {
        self.latest_task
    }

    pub closed spec fn generation_spec(&self) -> int {
        self.generation as int
    }

    /// Generation of the last task handed to the worker.
    pub closed spec fn last_started_spec(&self) -> int {
        self.last_started as int
    }

    /// Bytes this cache holds.
    pub closed spec fn held_bytes(&self) -> int {
        self.held as int
    }

    pub proof fn lemma_held_nonneg(&self)
        ensures
            self.held_bytes() >= 0,
    {
    }

    /// A cache whose only possible key is `k` holds at most one frame of
    /// `k`'s resolution.
    pub proof fn lemma_single_entry_bytes(&self, k: FrameKey)
        requires
            self.wf(),
            self.entries_map().dom().subset_of(set![k]),
        ensures
            self.held_bytes() <= key_bytes(k),
            self.entries_map().contains_key(k) ==> self.held_bytes() == key_bytes(k),
    {
        self.lemma_held_is_entry_bytes();
        lemma_keys_bytes_empty();
        if self.entries_map().contains_key(k) {
            assert(self.entries_map().dom() =~= Set::<FrameKey>::empty().insert(k));
            lemma_keys_bytes_insert(Set::<FrameKey>::empty(), k);
        } else {
            assert(self.entries_map().dom() =~= Set::<FrameKey>::empty());
        }
        assert(key_bytes(k) >= 0) by (nonlinear_arith)
            requires
                key_bytes(k) == 4 * (k.width as int) * (k.height as int),
        ;
    }

    /// A cache holds exactly the bytes of its entries, each entry one frame of
    /// its key's resolution.
    pub proof fn lemma_held_is_entry_bytes(&self)
        requires
            self.wf(),
        ensures
            self.entries_map().dom().finite(),
            self.held_bytes() == keys_bytes(self.entries_map().dom()),
            forall|k: FrameKey| #[trigger] self.entries_map().contains_key(k) ==> self.entries_map()[k].byte_size
                == key_bytes(k),
    {
        lemma_entry_bytes(self.entries@);
        assert forall|k: FrameKey| #[trigger] self.entries_map().contains_key(k) implies self.entries_map()[k].byte_size
            == key_bytes(k) by {
            let i = choose|i: int| 0 <= i < self.entries@.len() && self.entries@[i].key_spec() == k;
            lemma_lookup(self.entries@, i);
            assert(self.entries@[i].wf());
        }
    }

    pub closed spec fn path_spec(&self) -> Seq<char> {
        self.path@
    }

    pub closed spec fn width_spec(&self) -> u32 {
        self.width
    }

    pub closed spec fn height_spec(&self) -> u32 {
        self.height
    }

    pub closed spec fn wf(&self) -> bool {
        &&& keys_unique(self.entries@)
        &&& forall|i: int| 0 <= i < self.entries@.len() ==> #[trigger] self.entries@[i].wf()
        &&& forall|i: int| 0 <= i < self.entries@.len() ==> #[trigger] self.entries@[i].view().generation <= self.generation
        &&& forall|i: int| 0 <= i < self.entries@.len() ==> #[trigger] self.entries@[i].view().last_access <= self.generation
        &&& self.held == sum_sizes(self.entries@)
        &&& self.pending@.no_duplicates()
        &&& forall|i: int| 0 <= i < self.pending@.len() ==> {
            &&& #[trigger] entry_map(self.entries@).contains_key(self.pending@[i])
            &&& !entry_map(self.entries@)[self.pending@[i]].ready
        }
        &&& self.last_started <= self.generation
        &&& match self.latest_task {
            Some(t) => self.last_started < t.generation <= self.generation && frame_size_ok(t.key.width, t.key.height),
            None => true,
        }
        &&& frame_size_ok(self.width, self.height)
    }

    /// Bytes a cache can hold after any of its operations: the budget, or
    /// a single frame when that is larger.
    pub open spec fn held_bound(max: int) -> int {
        if max >= MAX_FRAME_BYTES {
            max
        } else {
            MAX_FRAME_BYTES as int
        }
    }

    /// Removes `key` from the pending keys, if it is there.
    fn remove_pending(&mut self, key: FrameKey)
        requires
            old(self).pending@.no_duplicates(),
        ensures
            final(self).pending@.no_duplicates(),
            forall|q: FrameKey| #[trigger] final(self).pending@.contains(q) <==> (old(self).pending@.contains(q) && q != key),
            final(self).entries == old(self).entries,
            final(self).path == old(self).path,
            final(self).width == old(self).width,
            final(self).height == old(self).height,
            final(self).latest_task == old(self).latest_task,
            final(self).generation == old(self).generation,
            final(self).last_started == old(self).last_started,
            final(self).held == old(self).held,
    {
        let mut i: usize = 0;
        while i < self.pending.len()
            invariant
                *self == *old(self),
                self.pending@.no_duplicates(),
                i <= self.pending@.len(),
                forall|j: int| 0 <= j < i ==> self.pending@[j] != key,
            decreases self.pending@.len() - i,
        {
            if self.pending[i] == key {
                let ghost before = self.pending@;
                self.pending.remove(i);
                proof {
                    assert forall|a: int, b: int| 0 <= a < self.pending@.len() && 0 <= b < self.pending@.len() && a != b
                        implies self.pending@[a] != self.pending@[b] by {
                        let a0 = if a < i { a } else { a + 1 };
                        let b0 = if b < i { b } else { b + 1 };
                        assert(self.pending@[a] == before[a0] && self.pending@[b] == before[b0]);
                    }
                    assert forall|q: FrameKey| self.pending@.contains(q) <==> (before.contains(q) && q != key) by {
                        if self.pending@.contains(q) {
                            let a = choose|a: int| 0 <= a < self.pending@.len() && self.pending@[a] == q;
                            let a0 = if a < i { a } else { a + 1 };
                            assert(self.pending@[a] == before[a0]);
                        }
                        if before.contains(q) && q != key {
                            let a0 = choose|a: int| 0 <= a < before.len() && before[a] == q;
                            let a = if a0 < i { a0 } else { a0 - 1 };
                            assert(self.pending@[a] == before[a0]);
                        }
                    }
                }
                return;
            }
            i = i + 1;
        }
        proof {
            assert(!self.pending@.contains(key));
        }
    }

    /// Position of the entry for `key`.
    fn find(&self, key: FrameKey) -> (r: Option<usize>)
        requires
            keys_unique(self.entries@),
        ensures
            match r {
                Some(i) => i < self.entries@.len() && self.entries@[i as int].key_spec() == key,
                None => !has_key(self.entries@, key),
            },
    {
        let mut i: usize = 0;
        while i < self.entries.len()
            invariant
                i <= self.entries@.len(),
                forall|j: int| 0 <= j < i ==> self.entries@[j].key_spec() != key,
            decreases self.entries@.len() - i,
        {
            if self.entries[i].key == key {
                return Some(i);
            }
            i = i + 1;
        }
        None
    }

    /// Position of the least recently used entry other than `keep`.
    fn oldest_except(&self, keep: FrameKey) -> (r: Option<usize>)
        ensures
            match r {
                Some(b) => {
                    &&& b < self.entries@.len()
                    &&& self.entries@[b as int].key_spec() != keep
                    &&& forall|j: int| 0 <= j < self.entries@.len() && self.entries@[j].key_spec() != keep
                        ==> self.entries@[b as int].view().last_access <= #[trigger] self.entries@[j].view().last_access
                },
                None => forall|j: int| 0 <= j < self.entries@.len() ==> #[trigger] self.entries@[j].key_spec() == keep,
            },
    {
        let mut best: Option<usize> = None;
        let mut i: usize = 0;
        while i < self.entries.len()
            invariant
                i <= self.entries@.len(),
                match best {
                    Some(b) => {
                        &&& b < i
                        &&& self.entries@[b as int].key_spec() != keep
                        &&& forall|j: int| 0 <= j < i && self.entries@[j].key_spec() != keep
                            ==> self.entries@[b as int].view().last_access <= #[trigger] self.entries@[j].view().last_access
                    },
                    None => forall|j: int| 0 <= j < i ==> #[trigger] self.entries@[j].key_spec() == keep,
                },
            decreases self.entries@.len() - i,
        {
            if self.entries[i].key != keep {
                match best {
                    Some(b) => {
                        if self.entries[i].last_access < self.entries[b].last_access {
                            best = Some(i);
                        }
                    },
                    None => {
                        best = Some(i);
                    },
                }
            }
            i = i + 1;
        }
        best
    }

    /// Drops least recently used entries other than `keep` while the meter
    /// is over budget.
    fn evict(&mut self, meter: &mut CapacityMeter, keep: FrameKey)
        requires
            old(self).wf(),
            old(meter).total >= old(self).held_bytes(),
        ensures
            final(self).wf(),
            evicted_from(
                old(self).entries_map(),
                final(self).entries_map(),
                keep,
                old(meter).total as int,
                final(meter).total as int,
                old(meter).max as int,
            ),
            final(meter).max == old(meter).max,
            final(meter).total == old(meter).total - old(self).held_bytes() + final(self).held_bytes(),
            final(self).held_bytes() <= old(self).held_bytes(),
            final(self).held_bytes() <= CachedDecoder::held_bound(old(meter).max as int),
            forall|k: FrameKey| #[trigger] final(self).pending_set().contains(k) <==> (old(self).pending_set().contains(k)
                && final(self).entries_map().contains_key(k)),
            final(self).path == old(self).path,
            final(self).width == old(self).width,
            final(self).height == old(self).height,
            final(self).latest_task == old(self).latest_task,
            final(self).generation == old(self).generation,
            final(self).last_started == old(self).last_started,
    {
        let ghost before = self.entries_map();
        let ghost pend0 = self.pending_set();
        let ghost total0 = meter.total as int;
        let ghost mut last: Option<FrameKey> = None;
        loop
            invariant
                self.wf(),
                meter.max == old(meter).max,
                meter.total == total0 - old(self).held + self.held,
                meter.total >= self.held,
                total0 == old(meter).total,
                before == old(self).entries_map(),
                pend0 == old(self).pending_set(),
                self.held <= old(self).held,
                self.entries_map().dom().subset_of(before.dom()),
                forall|k: FrameKey| #[trigger] self.entries_map().contains_key(k) ==> self.entries_map()[k] == before[k],
                before.contains_key(keep) ==> self.entries_map().contains_key(keep),
                total0 <= meter.max ==> self.entries_map() == before,
                match last {
                    Some(r) => {
                        &&& before.contains_key(r)
                        &&& !self.entries_map().contains_key(r)
                        &&& meter.total + before[r].byte_size > meter.max
                        &&& forall|q: FrameKey|
                            before.contains_key(q) && !self.entries_map().contains_key(q) ==> #[trigger] before[q].last_access
                                <= before[r].last_access
                    },
                    None => self.entries_map() == before && meter.total == total0,
                },
                meter.total <= total0,
                forall|r: FrameKey, k: FrameKey|
                    before.contains_key(r) && !self.entries_map().contains_key(r) && #[trigger] self.entries_map().contains_key(k) && k
                        != keep ==> #[trigger] before[r].last_access <= before[k].last_access,
                forall|k: FrameKey| #[trigger] self.pending_set().contains(k) <==> (pend0.contains(k)
                    && self.entries_map().contains_key(k)),
                self.path == old(self).path,
                self.width == old(self).width,
                self.height == old(self).height,
                self.latest_task == old(self).latest_task,
                self.generation == old(self).generation,
                self.last_started == old(self).last_started,
            ensures
                meter.total <= meter.max || self.entries_map().dom().subset_of(set![keep]),
            decreases self.entries@.len(),
        {
            if meter.total <= meter.max as u128 {
                break;
            }
            match self.oldest_except(keep) {
                None => {
                    proof {
                        assert forall|k: FrameKey| #[trigger] self.entries_map().contains_key(k) implies set![keep].contains(k) by {
                            let j = choose|j: int| 0 <= j < self.entries@.len() && self.entries@[j].key_spec() == k;
                        }
                    }
                    break;
                },
                Some(b) => {
                    let ghost s0 = self.entries@;
                    let ghost m0 = self.entries_map();
                    let ghost p0 = self.pending_set();
                    let e = self.entries.remove(b);
                    proof {
                        lemma_map_remove(s0, b as int);
                        lemma_sum_remove(s0, b as int);
                        lemma_sum_nonneg(self.entries@);
                        lemma_lookup(s0, b as int);
                        assert forall|i: int| 0 <= i < self.entries@.len() implies #[trigger] self.entries@[i].wf()
                            && self.entries@[i].view().generation <= self.generation
                            && self.entries@[i].view().last_access <= self.generation by {
                            let i0 = if i < b { i } else { i + 1 };
                            assert(self.entries@[i] == s0[i0]);
                        }
                        assert forall|r: FrameKey, k: FrameKey|
                            before.contains_key(r) && !self.entries_map().contains_key(r) && #[trigger] self.entries_map().contains_key(k) && k
                                != keep implies #[trigger] before[r].last_access <= before[k].last_access by {
                            if r == e.key_spec() {
                                let j = choose|j: int| 0 <= j < s0.len() && s0[j].key_spec() == k;
                                lemma_lookup(s0, j);
                            }
                        }
                    }
                    self.held = self.held - e.byte_size as u128;
                    meter.total = meter.total - e.byte_size as u128;
                    proof {
                        assert(m0[e.key] == e.view());
                        assert(before[e.key] == e.view());
                        assert forall|q: FrameKey|
                            before.contains_key(q) && !self.entries_map().contains_key(q) implies #[trigger] before[q].last_access
                                <= before[e.key].last_access by {
                            if q != e.key {
                                assert(!m0.contains_key(q));
                                assert(m0.contains_key(e.key));
                                assert(before[q].last_access <= before[e.key].last_access);
                            }
                        }
                        last = Some(e.key);
                    }
                    let ghost pv0 = self.pending@;
                    self.remove_pending(e.key);
                    proof {
                        assert forall|i: int| 0 <= i < self.pending@.len() implies {
                            &&& #[trigger] entry_map(self.entries@).contains_key(self.pending@[i])
                            &&& !entry_map(self.entries@)[self.pending@[i]].ready
                        } by {
                            let q = self.pending@[i];
                            assert(self.pending@.contains(q));
                            assert(pv0.contains(q));
                            let i0 = choose|i0: int| 0 <= i0 < pv0.len() && pv0[i0] == q;
                            assert(entry_map(s0).contains_key(pv0[i0]));
                        }
                        assert forall|k: FrameKey| #[trigger] self.pending_set().contains(k) <==> (pend0.contains(k)
                            && self.entries_map().contains_key(k)) by {
                            assert(self.pending_set().contains(k) == self.pending@.contains(k));
                            assert(p0.contains(k) == pv0.contains(k));
                            assert(p0.contains(k) <==> (pend0.contains(k) && m0.contains_key(k)));
                        }
                    }
                },
            }
        }
        proof {
            lemma_entry_bytes(old(self).entries@);
            lemma_entry_bytes(self.entries@);
            if meter.total <= meter.max {
            } else {
                let s = self.entries@;
                if s.len() >= 2 {
                    lemma_lookup(s, 0);
                    lemma_lookup(s, 1);
                    assert(false);
                }
                if s.len() == 1 {
                    assert(s.drop_last().len() == 0);
                    assert(sum_sizes(s.drop_last()) == 0);
                    assert(sum_sizes(s) == s[0].view().byte_size);
                    assert(s[0].wf());
                }
                if s.len() == 0 {
                    assert(sum_sizes(s) == 0);
                }
            }
        }
    }

    /// Position of the most recently used entry.
    fn newest(&self) -> (r: Option<usize>)
        ensures
            match r {
                Some(b) => {
                    &&& b < self.entries@.len()
                    &&& forall|j: int| 0 <= j < self.entries@.len() ==> #[trigger] self.entries@[j].view().last_access
                        <= self.entries@[b as int].view().last_access
                },
                None => self.entries@.len() == 0,
            },
    {
        if self.entries.len() == 0 {
            return None;
        }
        let mut best: usize = 0;
        let mut i: usize = 1;
        while i < self.entries.len()
            invariant
                1 <= i <= self.entries@.len(),
                best < i,
                forall|j: int| 0 <= j < i ==> #[trigger] self.entries@[j].view().last_access
                    <= self.entries@[best as int].view().last_access,
            decreases self.entries@.len() - i,
        {
            if self.entries[i].last_access > self.entries[best].last_access {
                best = i;
            }
            i = i + 1;
        }
        Some(best)
    }

    /// The periodic eviction step: while the meter is over budget, drops the
    /// least recently used entries, keeping the most recently used one.
    /// Returns the key it kept, or `None` when the cache is empty.
    pub fn collect_garbage(&mut self, meter: &mut CapacityMeter) -> (kept: Option<FrameKey>)
        requires
            old(self).wf(),
            old(meter).total >= old(self).held_bytes(),
            old(self).held_bytes() <= CachedDecoder::held_bound(old(meter).max as int),
        ensures
            final(self).wf(),
            final(meter).max == old(meter).max,
            collect_post(*old(self), *final(self), old(meter).total as int, final(meter).total as int, old(meter).max as int, kept),
    {
        match self.newest() {
            None => {
                proof {
                    assert(self.entries_map() =~= Map::empty());
                }
                None
            },
            Some(b) => {
                let k = self.entries[b].key;
                proof {
                    lemma_lookup(self.entries@, b as int);
                    assert forall|q: FrameKey| #[trigger] self.entries_map().contains_key(q) implies self.entries_map()[q].last_access
                        <= self.entries_map()[k].last_access by {
                        let j = choose|j: int| 0 <= j < self.entries@.len() && self.entries@[j].key_spec() == q;
                        lemma_lookup(self.entries@, j);
                    }
                }
                self.evict(meter, k);
                Some(k)
            },
        }
    }

    /// A cache for the video at `path`, whose frames are requested at
    /// `width` x `height` by default.
    pub fn new(path: String, width: u32, height: u32) -> (r: Self)
        requires
            frame_size_ok(width, height),
        ensures
            r.wf(),
            r.entries_map().is_empty(),
            r.pending_set().is_empty(),
            r.latest_task_spec() is None,
            r.generation_spec() == 0,
            r.last_started_spec() == 0,
            r.held_bytes() == 0,
            r.path_spec() == path@,
            r.width_spec() == width,
            r.height_spec() == height,
    {
        let r = CachedDecoder {
            path,
            width,
            height,
            entries: Vec::new(),
            pending: Vec::new(),
            latest_task: None,
            generation: 0,
            last_started: 0,
            held: 0,
        };
        proof {
            assert(r.entries_map() =~= Map::empty());
            assert(r.pending_set() =~= Set::empty());
        }
        r
    }

    pub fn path(&self) -> (r: &String)
        ensures
            r@ == self.path_spec(),
    {
        &self.path
    }

    pub fn width(&self) -> (r: u32)
        ensures
            r == self.width_spec(),
    {
        self.width
    }

    pub fn height(&self) -> (r: u32)
        ensures
            r == self.height_spec(),
    {
        self.height
    }

    /// The generation of the latest request.
    pub fn generation(&self) -> (r: u64)
        ensures
            r == self.generation_spec(),
    {
        self.generation
    }

    /// Bytes this cache holds.
    pub fn held(&self) -> (r: u128)
        ensures
            r == self.held_bytes(),
    {
        self.held
    }

    /// Adds `key` to the pending keys.
    fn add_pending(&mut self, key: FrameKey)
        requires
            old(self).pending@.no_duplicates(),
        ensures
            final(self).pending@.no_duplicates(),
            forall|q: FrameKey| #[trigger] final(self).pending@.contains(q) <==> (old(self).pending@.contains(q) || q == key),
            final(self).entries == old(self).entries,
            final(self).path == old(self).path,
            final(self).width == old(self).width,
            final(self).height == old(self).height,
            final(self).latest_task == old(self).latest_task,
            final(self).generation == old(self).generation,
            final(self).last_started == old(self).last_started,
            final(self).held == old(self).held,
    {
        let mut i: usize = 0;
        while i < self.pending.len()
            invariant
                *self == *old(self),
                self.pending@.no_duplicates(),
                i <= self.pending@.len(),
                forall|j: int| 0 <= j < i ==> self.pending@[j] != key,
            decreases self.pending@.len() - i,
        {
            if self.pending[i] == key {
                return;
            }
            i = i + 1;
        }
        let ghost before = self.pending@;
        self.pending.push(key);
        proof {
            assert forall|q: FrameKey| #[trigger] self.pending@.contains(q) <==> (before.contains(q) || q == key) by {
                if before.contains(q) {
                    let j = choose|j: int| 0 <= j < before.len() && before[j] == q;
                    assert(self.pending@[j] == q);
                }
                if self.pending@.contains(q) && q != key {
                    let j = choose|j: int| 0 <= j < self.pending@.len() && self.pending@[j] == q;
                    assert(before[j] == q);
                }
                assert(self.pending@[before.len() as int] == key);
            }
        }
    }

    /// Records a request for frame `index` at `width` x `height`: stamps it
    /// with the next generation, creates the entry if it is missing, makes a
    /// pending entry the one high-priority task, and evicts after an
    /// insertion; a hit evicts nothing. Returns the
    /// request's generation, or `None`, changing nothing, once the
    /// generation counter is exhausted.
    pub fn request_frame(&mut self, meter: &mut CapacityMeter, width: u32, height: u32, index: u64) -> (r:
        Option<u64>)
        requires
            old(self).wf(),
            frame_size_ok(width, height),
            old(meter).total >= old(self).held_bytes(),
            old(meter).total + MAX_FRAME_BYTES <= u128::MAX,
            old(self).held_bytes() <= CachedDecoder::held_bound(old(meter).max as int),
        ensures
            final(self).wf(),
            final(meter).max == old(meter).max,
            request_post(
                *old(self),
                *final(self),
                old(meter).total as int,
                final(meter).total as int,
                old(meter).max as int,
                width,
                height,
                index,
                r,
            ),
    {
        if self.generation == u64::MAX {
            return None;
        }
        let gen = self.generation + 1;
        self.generation = gen;
        let key = FrameKey { index, width, height };
        let ghost m = old(self).entries_map();
        let ghost e_spec = requested_entry(m, key, gen as int);
        let schedule: bool;
        let inserted: bool;
        match self.find(key) {
            Some(i) => {
                inserted = false;
                let ghost s0 = self.entries@;
                let mut e = self.entries.remove(i);
                let ghost e0 = e;
                e.last_access = gen;
                if !e.ready {
                    e.generation = gen;
                }
                schedule = !e.ready;
                self.entries.insert(i, e);
                proof {
                    assert(self.entries@ =~= s0.update(i as int, e));
                    lemma_lookup(s0, i as int);
                    lemma_map_update(s0, i as int, e);
                    lemma_sum_update(s0, i as int, e);
                    assert(e.view() == e_spec);
                    assert(s0[i as int] == e0);
                    assert(e0.wf());
                    assert(e.wf());
                    assert forall|j: int| 0 <= j < self.entries@.len() implies #[trigger] self.entries@[j].wf()
                        && self.entries@[j].view().generation <= self.generation
                        && self.entries@[j].view().last_access <= self.generation by {
                        if j != i {
                            assert(self.entries@[j] == s0[j]);
                        }
                    }
                }
            },
            None => {
                let size = frame_byte_size(width, height);
                let e = CacheEntry {
                    key,
                    future: ManualFuture::new(),
                    ready: false,
                    byte_size: size,
                    generation: gen,
                    last_access: gen,
                };
                let ghost s0 = self.entries@;
                self.entries.push(e);
                proof {
                    lemma_map_push(s0, e);
                    assert(self.entries@.drop_last() =~= s0);
                    assert(e.view() == e_spec);
                    lemma_sum_nonneg(s0);
                    assert forall|j: int| 0 <= j < self.entries@.len() implies #[trigger] self.entries@[j].wf()
                        && self.entries@[j].view().generation <= self.generation
                        && self.entries@[j].view().last_access <= self.generation by {
                        if j < s0.len() {
                            assert(self.entries@[j] == s0[j]);
                        }
                    }
                }
                self.held = self.held + size as u128;
                meter.total = meter.total + size as u128;
                schedule = true;
                inserted = true;
            },
        }
        proof {
            assert(self.entries_map() == m.insert(key, e_spec));
            assert forall|j: int| 0 <= j < self.pending@.len() implies {
                &&& #[trigger] entry_map(self.entries@).contains_key(self.pending@[j])
                &&& !entry_map(self.entries@)[self.pending@[j]].ready
            } by {
                assert(m.contains_key(old(self).pending@[j]));
            }
        }
        if schedule {
            self.add_pending(key);
            match self.latest_task {
                Some(t) => {
                    if t.key != key {
                        self.remove_pending(t.key);
                    }
                },
                None => {},
            }
            self.latest_task = Some(DecodeTask { key, generation: gen });
            proof {
                assert forall|j: int| 0 <= j < self.pending@.len() implies {
                    &&& #[trigger] entry_map(self.entries@).contains_key(self.pending@[j])
                    &&& !entry_map(self.entries@)[self.pending@[j]].ready
                } by {
                    let q = self.pending@[j];
                    assert(self.pending@.contains(q));
                    if q != key {
                        let j0 = choose|j0: int| 0 <= j0 < old(self).pending@.len() && old(self).pending@[j0] == q;
                        assert(m.contains_key(old(self).pending@[j0]));
                    }
                }
            }
        }
        let ghost pend_mid = self.pending_set();
        let ghost m_mid = self.entries_map();
        proof {
            assert(keys_unique(self.entries@));
            assert(self.held == sum_sizes(self.entries@));
            assert(self.pending@.no_duplicates());
            assert(self.last_started <= self.generation);
            assert(self.wf());
            assert(m_mid == m.insert(key, e_spec));
            assert(e_spec.ready == !schedule);
            assert forall|q: FrameKey| #[trigger] pend_mid.contains(q) <==> m_mid.contains_key(q) && ((q == key && !e_spec.ready) || (
                old(self).pending_set().contains(q) && !displaced(*old(self), key, e_spec.ready, q))) by {
                assert(pend_mid.contains(q) == self.pending@.contains(q));
                assert(old(self).pending_set().contains(q) == old(self).pending@.contains(q));
                if old(self).pending@.contains(q) {
                    let j0 = choose|j0: int| 0 <= j0 < old(self).pending@.len() && old(self).pending@[j0] == q;
                    assert(m.contains_key(old(self).pending@[j0]));
                }
                if self.pending@.contains(q) {
                    let j0 = choose|j0: int| 0 <= j0 < self.pending@.len() && self.pending@[j0] == q;
                    assert(entry_map(self.entries@).contains_key(self.pending@[j0]));
                }
            }
        }
        if inserted {
            self.evict(meter, key);
        }
        proof {
            if m.contains_key(key) {
                assert(self.pending_set() == pend_mid);
                assert(self.entries_map() == m_mid);
            }
        }
        Some(gen)
    }

    /// Requests frame `frame_index` at this cache's default size.
    pub fn get_frame(&mut self, meter: &mut CapacityMeter, frame_index: u64) -> (r: Option<u64>)
        requires
            old(self).wf(),
            old(meter).total >= old(self).held_bytes(),
            old(meter).total + MAX_FRAME_BYTES <= u128::MAX,
            old(self).held_bytes() <= CachedDecoder::held_bound(old(meter).max as int),
        ensures
            final(self).wf(),
            final(meter).max == old(meter).max,
            request_post(
                *old(self),
                *final(self),
                old(meter).total as int,
                final(meter).total as int,
                old(meter).max as int,
                old(self).width_spec(),
                old(self).height_spec(),
                frame_index,
                r,
            ),
    {
        let w = self.width;
        let h = self.height;
        self.request_frame(meter, w, h, frame_index)
    }

    /// Takes the high-priority task for the worker. A task that a later
    /// request has made stale, or whose frame is already there, is dropped
    /// and its key leaves the pending set. A task handed out always carries
    /// a generation above that of every task handed out before.
    pub fn next_task(&mut self) -> (r: Option<DecodeTask>)
        requires
            old(self).wf(),
        ensures
            final(self).wf(),
            next_task_post(*old(self), *final(self), r),
    {
        let task = self.latest_task;
        self.latest_task = None;
        match task {
            None => {
                proof {
                    assert(self.entries@ == old(self).entries@);
                    assert(self.pending@ == old(self).pending@);
                    assert(self.pending_set() =~= old(self).pending_set());
                    assert forall|i: int| 0 <= i < self.pending@.len() implies {
                        &&& #[trigger] entry_map(self.entries@).contains_key(self.pending@[i])
                        &&& !entry_map(self.entries@)[self.pending@[i]].ready
                    } by {
                        assert(entry_map(old(self).entries@).contains_key(old(self).pending@[i]));
                    }
                }
                None
            },
            Some(t) => {
                let stale = t.generation < self.generation;
                let ready = match self.find(t.key) {
                    Some(i) => self.entries[i].ready,
                    None => false,
                };
                proof {
                    match self.find_spec(t.key) {
                        Some(i) => lemma_lookup(self.entries@, i),
                        None => {},
                    }
                }
                if stale || ready {
                    self.remove_pending(t.key);
                    proof {
                        assert(self.pending_set() =~= old(self).pending_set().remove(t.key));
                        assert forall|i: int| 0 <= i < self.pending@.len() implies {
                            &&& #[trigger] entry_map(self.entries@).contains_key(self.pending@[i])
                            &&& !entry_map(self.entries@)[self.pending@[i]].ready
                        } by {
                            let q = self.pending@[i];
                            assert(self.pending@.contains(q));
                            let j0 = choose|j0: int| 0 <= j0 < old(self).pending@.len() && old(self).pending@[j0] == q;
                            assert(entry_map(old(self).entries@).contains_key(old(self).pending@[j0]));
                        }
                    }
                    None
                } else {
                    self.last_started = t.generation;
                    proof {
                        assert(self.pending_set() =~= old(self).pending_set());
                        assert forall|i: int| 0 <= i < self.pending@.len() implies {
                            &&& #[trigger] entry_map(self.entries@).contains_key(self.pending@[i])
                            &&& !entry_map(self.entries@)[self.pending@[i]].ready
                        } by {
                            assert(entry_map(old(self).entries@).contains_key(old(self).pending@[i]));
                        }
                    }
                    Some(t)
                }
            },
        }
    }

    /// Position of the entry for `key`, in specifications.
    closed spec fn find_spec(&self, key: FrameKey) -> Option<int> {
        if has_key(self.entries@, key) {
            Some(choose|i: int| 0 <= i < self.entries@.len() && self.entries@[i].key_spec() == key)
        } else {
            None
        }
    }

    /// What a waiter for `key` finds: the frame, a decode on its way, or
    /// neither, in which case it asks again.
    pub fn poll_frame(&self, key: FrameKey) -> (r: FramePoll)
        requires
            self.wf(),
        ensures
            match r {
                FramePoll::Ready(b) => {
                    &&& self.entries_map().contains_key(key)
                    &&& self.entries_map()[key].ready
                    &&& self.entries_map()[key].value == Some((*b)@)
                },
                FramePoll::Waiting => {
                    &&& self.entries_map().contains_key(key)
                    &&& !self.entries_map()[key].ready
                    &&& self.pending_set().contains(key)
                },
                FramePoll::Missing => {
                    &&& !(self.entries_map().contains_key(key) && self.entries_map()[key].ready)
                    &&& !self.pending_set().contains(key)
                },
            },
    {
        match self.find(key) {
            Some(i) => {
                proof {
                    lemma_lookup(self.entries@, i as int);
                    assert(self.entries@[i as int].wf());
                }
                match self.entries[i].future.now() {
                    Some(b) => FramePoll::Ready(b),
                    None => {
                        if self.is_pending(key) {
                            FramePoll::Waiting
                        } else {
                            FramePoll::Missing
                        }
                    },
                }
            },
            None => {
                proof {
                    if self.pending@.contains(key) {
                        let j = choose|j: int| 0 <= j < self.pending@.len() && self.pending@[j] == key;
                        assert(entry_map(self.entries@).contains_key(self.pending@[j]));
                    }
                }
                FramePoll::Missing
            },
        }
    }

    fn is_pending(&self, key: FrameKey) -> (r: bool)
        ensures
            r == self.pending@.contains(key),
    {
        let mut i: usize = 0;
        while i < self.pending.len()
            invariant
                i <= self.pending@.len(),
                forall|j: int| 0 <= j < i ==> self.pending@[j] != key,
            decreases self.pending@.len() - i,
        {
            if self.pending[i] == key {
                return true;
            }
            i = i + 1;
        }
        false
    }

    /// Stores the outcome of decoding `task`. A frame of the right size is
    /// kept as it came; a failed decode, or one of the wrong size, leaves the
    /// dummy frame, so that waiters always get a picture. A ready entry keeps
    /// its bytes, and a task older than the entry's generation changes
    /// nothing. Evicts afterwards, keeping the task's entry.
    #[verifier::spinoff_prover]
    pub fn complete_task(
        &mut self,
        meter: &mut CapacityMeter,
        task: DecodeTask,
        decoded: Result<Vec<u8>, String>,
    )
        requires
            old(self).wf(),
            frame_size_ok(task.key.width, task.key.height),
            task.generation <= old(self).generation_spec(),
            old(meter).total >= old(self).held_bytes(),
            old(meter).total + MAX_FRAME_BYTES <= u128::MAX,
            old(self).held_bytes() <= CachedDecoder::held_bound(old(meter).max as int),
        ensures
            final(self).wf(),
            final(meter).max == old(meter).max,
            completion_post(
                *old(self),
                *final(self),
                old(meter).total as int,
                final(meter).total as int,
                old(meter).max as int,
                task,
                decoded_view(decoded),
            ),
    {
        let key = task.key;
        let ghost m = old(self).entries_map();
        let ghost dv = decoded_view(decoded);
        let size = frame_byte_size(key.width, key.height);
        let frame: Vec<u8> = match decoded {
            Ok(b) => {
                if b.len() as u64 == size {
                    b
                } else {
                    generate_dummy_frame(key.width, key.height)
                }
            },
            Err(_) => generate_dummy_frame(key.width, key.height),
        };
        let ghost fv = frame@;
        assert(fv == stored_frame(dv, key));
        let now = self.generation;
        let ghost m1 = completed_map(m, task, fv, now as int);
        let mut applied = false;
        match self.find(key) {
            Some(i) => {
                proof {
                    lemma_lookup(self.entries@, i as int);
                }
                if task.generation >= self.entries[i].generation {
                    let ghost s0 = self.entries@;
                    let mut e = self.entries.remove(i);
                    let ghost e0 = e;
                    e.generation = task.generation;
                    e.last_access = now;
                    if !e.ready {
                        e.future.complete(frame);
                        e.ready = true;
                    }
                    self.entries.insert(i, e);
                    applied = true;
                    proof {
                        assert(self.entries@ =~= s0.update(i as int, e));
                        lemma_map_update(s0, i as int, e);
                        lemma_sum_update(s0, i as int, e);
                        assert(s0[i as int] == e0);
                        assert(e0.wf());
                        assert(e.wf());
                        assert(e.view() == m1[key]);
                        assert(self.entries_map() == m1);
                        assert forall|j: int| 0 <= j < self.entries@.len() implies #[trigger] self.entries@[j].wf()
                            && self.entries@[j].view().generation <= self.generation
                            && self.entries@[j].view().last_access <= self.generation by {
                            if j != i {
                                assert(self.entries@[j] == s0[j]);
                            }
                        }
                    }
                } else {
                    assert(m1 == m);
                }
            },
            None => {
                let e = CacheEntry {
                    key,
                    future: ManualFuture::new_completed(frame),
                    ready: true,
                    byte_size: size,
                    generation: task.generation,
                    last_access: now,
                };
                let ghost s0 = self.entries@;
                self.entries.push(e);
                proof {
                    lemma_map_push(s0, e);
                    assert(self.entries@.drop_last() =~= s0);
                    lemma_sum_nonneg(s0);
                    assert(e.view() == m1[key]);
                    assert(self.entries_map() == m1);
                    assert forall|j: int| 0 <= j < self.entries@.len() implies #[trigger] self.entries@[j].wf()
                        && self.entries@[j].view().generation <= self.generation
                        && self.entries@[j].view().last_access <= self.generation by {
                        if j < s0.len() {
                            assert(self.entries@[j] == s0[j]);
                        }
                    }
                }
                self.held = self.held + size as u128;
                meter.total = meter.total + size as u128;
                applied = true;
            },
        }
        if applied {
            self.remove_pending(key);
        }
        proof {
            assert(self.entries_map() == m1);
            assert forall|j: int| 0 <= j < self.pending@.len() implies {
                &&& #[trigger] entry_map(self.entries@).contains_key(self.pending@[j])
                &&& !entry_map(self.entries@)[self.pending@[j]].ready
            } by {
                let q = self.pending@[j];
                assert(self.pending@.contains(q));
                let j0 = choose|j0: int| 0 <= j0 < old(self).pending@.len() && old(self).pending@[j0] == q;
                assert(m.contains_key(old(self).pending@[j0]));
            }
        }
        let ghost pend_mid = self.pending_set();
        proof {
            assert(keys_unique(self.entries@));
            assert(self.held == sum_sizes(self.entries@));
            assert(self.pending@.no_duplicates());
            assert(self.last_started <= self.generation);
            assert(self.wf());
        }
        self.evict(meter, key);
        proof {
            if applied {
                assert(!pend_mid.contains(key));
            }
        }
    }
}

/// Every frame a cache holds is `4 * width * height` bytes long, whether it
/// was decoded or stands in for a failed decode.
pub proof fn lemma_frames_have_frame_size(d: CachedDecoder)
    requires
        d.wf(),
    ensures
        forall|k: FrameKey| #[trigger] d.entries_map().contains_key(k) && d.entries_map()[k].value is Some
            ==> d.entries_map()[k].value->0.len() == frame_bytes(k.width as int, k.height as int),
{
    assert forall|k: FrameKey| #[trigger] d.entries_map().contains_key(k) && d.entries_map()[k].value is Some
        implies d.entries_map()[k].value->0.len() == frame_bytes(k.width as int, k.height as int) by {
        let i = choose|i: int| 0 <= i < d.entries@.len() && d.entries@[i].key_spec() == k;
        lemma_lookup(d.entries@, i);
        assert(d.entries@[i].wf());
    }
}

/// What a finished decode stores is `4 * width * height` bytes long.
pub proof fn lemma_stored_frame_size(decoded: Result<Seq<u8>, Seq<char>>, key: FrameKey)
    ensures
        stored_frame(decoded, key).len() == frame_bytes(key.width as int, key.height as int),
{
}

/// Two tasks that a cache hands to its worker, the second after the first,
/// with any requests and finished decodes between (none of which lowers the
/// last started generation), carry different generations: the codec runs at
/// most once per generation.
pub proof fn lemma_one_decode_per_generation(
    d0: CachedDecoder,
    d1: CachedDecoder,
    t1: DecodeTask,
    d2: CachedDecoder,
    d3: CachedDecoder,
    t2: DecodeTask,
)
    requires
        next_task_post(d0, d1, Some(t1)),
        d2.last_started_spec() >= d1.last_started_spec(),
        next_task_post(d2, d3, Some(t2)),
    ensures
        t1.generation < t2.generation,
{
}

/// Requests and finished decodes leave the last started generation as it was.
pub proof fn lemma_started_generation_kept(
    d0: CachedDecoder,
    d1: CachedDecoder,
    t0: int,
    t1: int,
    max: int,
    width: u32,
    height: u32,
    index: u64,
    r: Option<u64>,
    task: DecodeTask,
    decoded: Result<Seq<u8>, Seq<char>>,
)
    ensures
        request_post(d0, d1, t0, t1, max, width, height, index, r) ==> d1.last_started_spec()
            == d0.last_started_spec(),
        completion_post(d0, d1, t0, t1, max, task, decoded) ==> d1.last_started_spec()
            == d0.last_started_spec(),
{
}

/// After a request that inserted an entry, or a finished decode, has
/// evicted, the meter is within budget, or the cache holds nothing but the
/// entry just used.
pub proof fn lemma_capacity_bound(
    d0: CachedDecoder,
    d1: CachedDecoder,
    t0: int,
    t1: int,
    max: int,
    width: u32,
    height: u32,
    index: u64,
    r: Option<u64>,
    task: DecodeTask,
    decoded: Result<Seq<u8>, Seq<char>>,
)
    ensures
        request_post(d0, d1, t0, t1, max, width, height, index, r) && r is Some && !d0.entries_map().contains_key(
            FrameKey { index, width, height },
        ) ==> t1 <= max || d1.entries_map().dom() == set![FrameKey { index, width, height }],
        completion_post(d0, d1, t0, t1, max, task, decoded) ==> t1 <= max
            || d1.entries_map().dom().subset_of(set![task.key]),
{
    if request_post(d0, d1, t0, t1, max, width, height, index, r) && r is Some && !d0.entries_map().contains_key(
        FrameKey { index, width, height },
    ) {
        let key = FrameKey { index, width, height };
        if !(t1 <= max) {
            assert(d1.entries_map().dom() =~= set![key]);
        }
    }
}

/// A decode older than the entry's generation changes nothing.
pub proof fn lemma_stale_decode_changes_nothing(
    m: Map<FrameKey, EntryView>,
    task: DecodeTask,
    frame: Seq<u8>,
    now: int,
)
    requires
        m.contains_key(task.key),
        task.generation < m[task.key].generation,
    ensures
        completed_map(m, task, frame, now) == m,
{
}

/// No finished decode changes the bytes of a ready entry.
pub proof fn lemma_ready_bytes_kept(
    m: Map<FrameKey, EntryView>,
    task: DecodeTask,
    frame: Seq<u8>,
    now: int,
    k: FrameKey,
)
    requires
        m.contains_key(k),
        m[k].ready,
    ensures
        completed_map(m, task, frame, now).contains_key(k),
        completed_map(m, task, frame, now)[k].ready,
        completed_map(m, task, frame, now)[k].value == m[k].value,
{
}

/// Requesting a frame that is ready, as often as one likes, leaves it ready
/// with the same bytes: every such request is answered with one buffer.
pub proof fn lemma_repeat_request_same_bytes(m: Map<FrameKey, EntryView>, key: FrameKey, gen: int)
    requires
        m.contains_key(key),
        m[key].ready,
    ensures
        requested_entry(m, key, gen).ready,
        requested_entry(m, key, gen).value == m[key].value,
        requested_entry(m, key, gen).byte_size == m[key].byte_size,
{
}

/// A failed decode stores the dummy frame, `4 * width * height` bytes long.
pub proof fn lemma_failed_decode_stores_dummy(error: Seq<char>, key: FrameKey)
    ensures
        stored_frame(Err(error), key) == dummy_frame(key.width as int, key.height as int),
        stored_frame(Err(error), key).len() == frame_bytes(key.width as int, key.height as int),
{
}

/// A request for a frame that is still pending adds no second entry: the
/// key keeps its one pending entry, which every waiter of the key shares.
pub proof fn lemma_pending_request_shares_entry(m: Map<FrameKey, EntryView>, key: FrameKey, gen: int)
    requires
        m.contains_key(key),
        !m[key].ready,
    ensures
        !requested_entry(m, key, gen).ready,
        requested_entry(m, key, gen).value == m[key].value,
        requested_entry(m, key, gen).byte_size == m[key].byte_size,
        m.insert(key, requested_entry(m, key, gen)).dom() == m.dom(),
{
    assert(m.insert(key, requested_entry(m, key, gen)).dom() =~= m.dom());
}

/// A decode that applies to a pending entry fills it with the stored frame,
/// the one value all its waiters then see.
pub proof fn lemma_completion_fills_pending(
    m: Map<FrameKey, EntryView>,
    task: DecodeTask,
    frame: Seq<u8>,
    now: int,
)
    requires
        m.contains_key(task.key),
        !m[task.key].ready,
        completion_applies(m, task),
    ensures
        completed_map(m, task, frame, now)[task.key].ready,
        completed_map(m, task, frame, now)[task.key].value == Some(frame),
{
}

} // verus!
