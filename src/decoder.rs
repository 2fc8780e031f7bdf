use vstd::prelude::*;

use crate::cache::{
    collect_post, completion_post, decoded_view, next_task_post, request_post, CachedDecoder,
    CapacityMeter, DecodeTask, FrameKey, FramePoll,
};
use crate::frame::{frame_size_ok, MAX_FRAME_BYTES};

verus! {

/// Bytes held by a sequence of caches.
pub open spec fn sum_held(s: Seq<CachedDecoder>) -> int
    decreases s.len(),
{
    if s.len() == 0 {
        0
    } else {
        sum_held(s.drop_last()) + s.last().held_bytes()
    }
}

proof fn lemma_sum_held_update(s: Seq<CachedDecoder>, i: int, d: CachedDecoder)
    requires
        0 <= i < s.len(),
    ensures
        sum_held(s.update(i, d)) == sum_held(s) - s[i].held_bytes() + d.held_bytes(),
    decreases s.len(),
{
    let t = s.update(i, d);
    if i == s.len() - 1 {
        assert(t.drop_last() =~= s.drop_last());
    } else {
        lemma_sum_held_update(s.drop_last(), i, d);
        assert(t.drop_last() =~= s.drop_last().update(i, d));
    }
}

proof fn lemma_sum_held_bound(s: Seq<CachedDecoder>, b: int)
    requires
        b >= 0,
        forall|i: int| 0 <= i < s.len() ==> 0 <= #[trigger] s[i].held_bytes() <= b,
    ensures
        0 <= sum_held(s) <= s.len() * b,
    decreases s.len(),
{
    if s.len() > 0 {
        let t = s.drop_last();
        assert forall|i: int| 0 <= i < t.len() implies 0 <= #[trigger] t[i].held_bytes() <= b by {
            assert(t[i] == s[i]);
        }
        lemma_sum_held_bound(t, b);
        assert(0 <= s.last().held_bytes() <= b);
        assert(t.len() * b + b == s.len() * b) by (nonlinear_arith)
            requires
                t.len() + 1 == s.len(),
        ;
    }
}

/// The process-wide registry: one cache per video file, created on first
/// use and never removed, and the byte meter they share.
pub struct Decoder {
    decoders: Vec<CachedDecoder>,
    meter: CapacityMeter,
}

impl Decoder {
    pub closed spec fn decoders_spec(&self) -> Seq<CachedDecoder> {
        self.decoders@
    }

    /// Bytes held by all caches together.
    pub closed spec fn total_spec(&self) -> int {
        self.meter.total as int
    }

    /// The byte budget.
    pub closed spec fn max_spec(&self) -> int {
        self.meter.max as int
    }

    pub closed spec fn wf(&self) -> bool {
        &&& forall|i: int| 0 <= i < self.decoders@.len() ==> {
            &&& #[trigger] self.decoders@[i].wf()
            &&& 0 <= self.decoders@[i].held_bytes() <= CachedDecoder::held_bound(self.meter.max as int)
        }
        &&& self.meter.total == sum_held(self.decoders@)
        &&& forall|i: int, j: int|
            0 <= i < self.decoders@.len() && 0 <= j < self.decoders@.len() && i != j ==> #[trigger] self.decoders@[i].path_spec()
                != #[trigger] self.decoders@[j].path_spec()
    }

    /// An empty registry whose caches together keep to `max_cache_size`
    /// bytes.
    pub fn new(max_cache_size: u64) -> (r: Self)
        ensures
            r.wf(),
            r.decoders_spec().len() == 0,
            r.total_spec() == 0,
            r.max_spec() == max_cache_size,
    {
        Decoder { decoders: Vec::new(), meter: CapacityMeter { total: 0, max: max_cache_size } }
    }

    pub fn cache_total(&self) -> (r: u128)
        ensures
            r == self.total_spec(),
    {
        self.meter.total
    }

    pub fn max_cache_size(&self) -> (r: u64)
        ensures
            r == self.max_spec(),
    {
        self.meter.max
    }

    pub fn len(&self) -> (r: usize)
        ensures
            r == self.decoders_spec().len(),
    {
        self.decoders.len()
    }

    /// The cache in `slot`.
    pub fn get(&self, slot: usize) -> (r: &CachedDecoder)
        requires
            slot < self.decoders_spec().len(),
        ensures
            *r == self.decoders_spec()[slot as int],
    {
        &self.decoders[slot]
    }

    /// The slot of the cache for `path`, created at `width` x `height` if
    /// there is none yet.
    pub fn decoder(&mut self, path: String, width: u32, height: u32) -> (slot: usize)
        requires
            old(self).wf(),
            frame_size_ok(width, height),
        ensures
            final(self).wf(),
            final(self).total_spec() == old(self).total_spec(),
            final(self).max_spec() == old(self).max_spec(),
            slot < final(self).decoders_spec().len(),
            final(self).decoders_spec()[slot as int].path_spec() == path@,
            forall|i: int| 0 <= i < final(self).decoders_spec().len() && #[trigger] final(self).decoders_spec()[i].path_spec()
                == path@ ==> i == slot,
            (exists|i: int| 0 <= i < old(self).decoders_spec().len() && old(self).decoders_spec()[i].path_spec() == path@)
                ==> final(self).decoders_spec() == old(self).decoders_spec(),
            !(exists|i: int| 0 <= i < old(self).decoders_spec().len() && old(self).decoders_spec()[i].path_spec() == path@)
                ==> {
                let d = final(self).decoders_spec()[slot as int];
                &&& slot == old(self).decoders_spec().len()
                &&& final(self).decoders_spec().drop_last() == old(self).decoders_spec()
                &&& d.entries_map().is_empty()
                &&& d.pending_set().is_empty()
                &&& d.latest_task_spec() is None
                &&& d.generation_spec() == 0
                &&& d.width_spec() == width
                &&& d.height_spec() == height
            },
    {
        let mut i: usize = 0;
        while i < self.decoders.len()
            invariant
                *self == *old(self),
                self.wf(),
                i <= self.decoders@.len(),
                forall|j: int| 0 <= j < i ==> self.decoders@[j].path_spec() != path@,
            decreases self.decoders@.len() - i,
        {
            if *self.decoders[i].path() == path {
                proof {
                    assert(self.decoders@[i as int].path_spec() == path@);
                }
                return i;
            }
            i = i + 1;
        }
        let ghost s0 = self.decoders@;
        let d = CachedDecoder::new(path, width, height);
        self.decoders.push(d);
        proof {
            assert(self.decoders@.drop_last() =~= s0);
            assert forall|a: int| 0 <= a < self.decoders@.len() implies {
                &&& #[trigger] self.decoders@[a].wf()
                &&& 0 <= self.decoders@[a].held_bytes() <= CachedDecoder::held_bound(self.meter.max as int)
            } by {
                if a < s0.len() {
                    assert(self.decoders@[a] == s0[a]);
                }
            }
            assert forall|a: int, b: int|
                0 <= a < self.decoders@.len() && 0 <= b < self.decoders@.len() && a != b implies #[trigger] self.decoders@[a].path_spec()
                    != #[trigger] self.decoders@[b].path_spec() by {
                if a < s0.len() && b < s0.len() {
                    assert(self.decoders@[a] == s0[a] && self.decoders@[b] == s0[b]);
                } else if a < s0.len() {
                    assert(self.decoders@[a] == s0[a]);
                } else {
                    assert(self.decoders@[b] == s0[b]);
                }
            }
        }
        self.decoders.len() - 1
    }

    /// What every registry holds: the meter is the sum of what its caches
    /// hold, each cache is well formed and within bound, and no two caches
    /// share a path.
    pub proof fn lemma_registry_facts(&self)
        requires
            self.wf(),
        ensures
            self.total_spec() == sum_held(self.decoders_spec()),
            forall|i: int| 0 <= i < self.decoders_spec().len() ==> {
                &&& #[trigger] self.decoders_spec()[i].wf()
                &&& 0 <= self.decoders_spec()[i].held_bytes() <= CachedDecoder::held_bound(self.max_spec())
            },
            forall|i: int, j: int|
                0 <= i < self.decoders_spec().len() && 0 <= j < self.decoders_spec().len() && i != j
                    ==> #[trigger] self.decoders_spec()[i].path_spec() != #[trigger] self.decoders_spec()[j].path_spec(),
            self.decoders_spec().len() == 1 ==> self.total_spec() == self.decoders_spec()[0].held_bytes(),
    {
        if self.decoders@.len() == 1 {
            assert(sum_held(self.decoders@.drop_last()) == 0);
        }
    }

    /// The periodic eviction step on the cache in `slot`.
    pub fn collect_garbage(&mut self, slot: usize) -> (kept: Option<FrameKey>)
        requires
            old(self).wf(),
            slot < old(self).decoders_spec().len(),
        ensures
            final(self).wf(),
            final(self).max_spec() == old(self).max_spec(),
            final(self).decoders_spec().len() == old(self).decoders_spec().len(),
            forall|i: int| 0 <= i < old(self).decoders_spec().len() && i != slot ==> #[trigger] final(self).decoders_spec()[i]
                == old(self).decoders_spec()[i],
            collect_post(
                old(self).decoders_spec()[slot as int],
                final(self).decoders_spec()[slot as int],
                old(self).total_spec(),
                final(self).total_spec(),
                old(self).max_spec(),
                kept,
            ),
    {
        let ghost before = self.decoders@;
        let mut d = self.take(slot);
        let kept = d.collect_garbage(&mut self.meter);
        proof {
            d.lemma_held_nonneg();
            assert(self.meter.max == old(self).meter.max);
            assert forall|i: int| 0 <= i < before.len() implies {
                &&& #[trigger] before[i].wf()
                &&& 0 <= before[i].held_bytes() <= CachedDecoder::held_bound(old(self).meter.max as int)
            } by {
                assert(old(self).decoders@[i].wf());
            }
        }
        self.put(slot, d, Ghost(before));
        kept
    }

    /// Requests frame `index` at `width` x `height` from the cache in `slot`;
    /// the other caches are left as they were.
    pub fn request_frame(&mut self, slot: usize, width: u32, height: u32, index: u64) -> (r: Option<u64>)
        requires
            old(self).wf(),
            slot < old(self).decoders_spec().len(),
            frame_size_ok(width, height),
        ensures
            final(self).wf(),
            final(self).max_spec() == old(self).max_spec(),
            final(self).decoders_spec().len() == old(self).decoders_spec().len(),
            forall|i: int| 0 <= i < old(self).decoders_spec().len() && i != slot ==> #[trigger] final(self).decoders_spec()[i]
                == old(self).decoders_spec()[i],
            request_post(
                old(self).decoders_spec()[slot as int],
                final(self).decoders_spec()[slot as int],
                old(self).total_spec(),
                final(self).total_spec(),
                old(self).max_spec(),
                width,
                height,
                index,
                r,
            ),
    {
        let ghost before = self.decoders@;
        let mut d = self.take(slot);
        let r = d.request_frame(&mut self.meter, width, height, index);
        proof {
            d.lemma_held_nonneg();
            assert(self.meter.max == old(self).meter.max);
            assert forall|i: int| 0 <= i < before.len() implies {
                &&& #[trigger] before[i].wf()
                &&& 0 <= before[i].held_bytes() <= CachedDecoder::held_bound(old(self).meter.max as int)
            } by {
                assert(old(self).decoders@[i].wf());
            }
        }
        self.put(slot, d, Ghost(before));
        r
    }

    /// Takes the high-priority task of the cache in `slot` for its worker.
    pub fn next_task(&mut self, slot: usize) -> (r: Option<DecodeTask>)
        requires
            old(self).wf(),
            slot < old(self).decoders_spec().len(),
        ensures
            final(self).wf(),
            final(self).max_spec() == old(self).max_spec(),
            final(self).total_spec() == old(self).total_spec(),
            final(self).decoders_spec().len() == old(self).decoders_spec().len(),
            forall|i: int| 0 <= i < old(self).decoders_spec().len() && i != slot ==> #[trigger] final(self).decoders_spec()[i]
                == old(self).decoders_spec()[i],
            next_task_post(old(self).decoders_spec()[slot as int], final(self).decoders_spec()[slot as int], r),
    {
        let ghost before = self.decoders@;
        let mut d = self.take(slot);
        let r = d.next_task();
        self.put(slot, d, Ghost(before));
        r
    }

    /// What a waiter for `key` finds in the cache in `slot`.
    pub fn poll_frame(&self, slot: usize, key: FrameKey) -> (r: FramePoll)
        requires
            self.wf(),
            slot < self.decoders_spec().len(),
        ensures
            ({
                let d = self.decoders_spec()[slot as int];
                match r {
                    FramePoll::Ready(b) => {
                        &&& d.entries_map().contains_key(key)
                        &&& d.entries_map()[key].ready
                        &&& d.entries_map()[key].value == Some((*b)@)
                    },
                    FramePoll::Waiting => {
                        &&& d.entries_map().contains_key(key)
                        &&& !d.entries_map()[key].ready
                        &&& d.pending_set().contains(key)
                    },
                    FramePoll::Missing => {
                        &&& !(d.entries_map().contains_key(key) && d.entries_map()[key].ready)
                        &&& !d.pending_set().contains(key)
                    },
                }
            }),
    {
        proof {
            assert(self.decoders@[slot as int].wf());
        }
        self.decoders[slot].poll_frame(key)
    }

    /// Stores the outcome of decoding `task` in the cache in `slot`.
    pub fn complete_task(&mut self, slot: usize, task: DecodeTask, decoded: Result<Vec<u8>, String>)
        requires
            old(self).wf(),
            slot < old(self).decoders_spec().len(),
            frame_size_ok(task.key.width, task.key.height),
            task.generation <= old(self).decoders_spec()[slot as int].generation_spec(),
        ensures
            final(self).wf(),
            final(self).max_spec() == old(self).max_spec(),
            final(self).decoders_spec().len() == old(self).decoders_spec().len(),
            forall|i: int| 0 <= i < old(self).decoders_spec().len() && i != slot ==> #[trigger] final(self).decoders_spec()[i]
                == old(self).decoders_spec()[i],
            completion_post(
                old(self).decoders_spec()[slot as int],
                final(self).decoders_spec()[slot as int],
                old(self).total_spec(),
                final(self).total_spec(),
                old(self).max_spec(),
                task,
                decoded_view(decoded),
            ),
    {
        let ghost before = self.decoders@;
        let mut d = self.take(slot);
        d.complete_task(&mut self.meter, task, decoded);
        proof {
            d.lemma_held_nonneg();
            assert(self.meter.max == old(self).meter.max);
            assert forall|i: int| 0 <= i < before.len() implies {
                &&& #[trigger] before[i].wf()
                &&& 0 <= before[i].held_bytes() <= CachedDecoder::held_bound(old(self).meter.max as int)
            } by {
                assert(old(self).decoders@[i].wf());
            }
        }
        self.put(slot, d, Ghost(before));
    }

    /// Meter room for one more frame, whatever the caches hold.
    proof fn lemma_meter_room(&self)
        requires
            self.wf(),
            self.decoders@.len() <= usize::MAX,
        ensures
            self.meter.total + MAX_FRAME_BYTES <= u128::MAX,
    {
        let b = CachedDecoder::held_bound(self.meter.max as int);
        assert forall|i: int| 0 <= i < self.decoders@.len() implies 0 <= #[trigger] self.decoders@[i].held_bytes() <= b by {
            assert(self.decoders@[i].wf());
        }
        lemma_sum_held_bound(self.decoders@, b);
        let n = self.decoders@.len();
        assert(n * b + MAX_FRAME_BYTES <= u128::MAX) by (nonlinear_arith)
            requires
                0 <= n <= 0xffff_ffff_ffff_ffff,
                0 <= b <= 0xffff_ffff_ffff_ffff,
        ;
    }

    /// Takes the cache in `slot` out, with what the others hold.
    fn take(&mut self, slot: usize) -> (d: CachedDecoder)
        requires
            old(self).wf(),
            slot < old(self).decoders@.len(),
        ensures
            d == old(self).decoders@[slot as int],
            final(self).decoders@ == old(self).decoders@.remove(slot as int),
            final(self).meter == old(self).meter,
            d.wf(),
            0 <= d.held_bytes() <= CachedDecoder::held_bound(old(self).meter.max as int),
            old(self).meter.total >= d.held_bytes(),
            old(self).meter.total + MAX_FRAME_BYTES <= u128::MAX,
    {
        let n = self.decoders.len();
        proof {
            self.lemma_meter_room();
            let b = CachedDecoder::held_bound(self.meter.max as int);
            let r = self.decoders@.remove(slot as int);
            assert(self.decoders@[slot as int].wf());
            assert forall|i: int| 0 <= i < r.len() implies 0 <= #[trigger] r[i].held_bytes() <= b by {
                let i0 = if i < slot { i } else { i + 1 };
                assert(r[i] == self.decoders@[i0]);
                assert(self.decoders@[i0].wf());
            }
            lemma_sum_held_bound(r, b);
            lemma_sum_held_remove(self.decoders@, slot as int);
        }
        self.decoders.remove(slot)
    }

    /// Puts `d` back into `slot`.
    fn put(&mut self, slot: usize, d: CachedDecoder, ghost_before: Ghost<Seq<CachedDecoder>>)
        requires
            slot <= old(self).decoders@.len(),
            old(self).decoders@ == ghost_before@.remove(slot as int),
            slot < ghost_before@.len(),
            d.wf(),
            0 <= d.held_bytes() <= CachedDecoder::held_bound(old(self).meter.max as int),
            d.path_spec() == ghost_before@[slot as int].path_spec(),
            forall|i: int| 0 <= i < ghost_before@.len() ==> {
                &&& #[trigger] ghost_before@[i].wf()
                &&& 0 <= ghost_before@[i].held_bytes() <= CachedDecoder::held_bound(old(self).meter.max as int)
            },
            forall|i: int, j: int|
                0 <= i < ghost_before@.len() && 0 <= j < ghost_before@.len() && i != j ==> #[trigger] ghost_before@[i].path_spec()
                    != #[trigger] ghost_before@[j].path_spec(),
            old(self).meter.total == sum_held(ghost_before@) - ghost_before@[slot as int].held_bytes() + d.held_bytes(),
        ensures
            final(self).wf(),
            final(self).decoders@ == ghost_before@.update(slot as int, d),
            final(self).meter == old(self).meter,
    {
        self.decoders.insert(slot, d);
        proof {
            let s = ghost_before@;
            assert(self.decoders@ =~= s.update(slot as int, d));
            lemma_sum_held_update(s, slot as int, d);
            assert forall|a: int| 0 <= a < self.decoders@.len() implies {
                &&& #[trigger] self.decoders@[a].wf()
                &&& 0 <= self.decoders@[a].held_bytes() <= CachedDecoder::held_bound(self.meter.max as int)
            } by {
                if a != slot {
                    assert(self.decoders@[a] == s[a]);
                }
            }
            assert forall|a: int, b: int|
                0 <= a < self.decoders@.len() && 0 <= b < self.decoders@.len() && a != b implies #[trigger] self.decoders@[a].path_spec()
                    != #[trigger] self.decoders@[b].path_spec() by {
                assert(self.decoders@[a].path_spec() == s[a].path_spec());
                assert(self.decoders@[b].path_spec() == s[b].path_spec());
            }
        }
    }
}

proof fn lemma_sum_held_remove(s: Seq<CachedDecoder>, i: int)
    requires
        0 <= i < s.len(),
    ensures
        sum_held(s.remove(i)) == sum_held(s) - s[i].held_bytes(),
    decreases s.len(),
{
    if i == s.len() - 1 {
        assert(s.remove(i) =~= s.drop_last());
    } else {
        let t = s.remove(i);
        lemma_sum_held_remove(s.drop_last(), i);
        assert(t.drop_last() =~= s.drop_last().remove(i));
        assert(t.last() == s.last());
    }
}

} // verus!
