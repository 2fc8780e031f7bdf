use std::sync::Arc;

use frame_cache::cache::{CachedDecoder, CapacityMeter, DecodeTask, FrameKey, FramePoll};
use frame_cache::decoder::Decoder;
use frame_cache::frame::generate_dummy_frame;

const GIB4: u64 = 4 * 1024 * 1024 * 1024;

fn decoded(width: u32, height: u32, seed: u8) -> Vec<u8> {
    vec![seed; (width as usize) * (height as usize) * 4]
}

/// Runs the worker until no task is left, decoding each with `codec`, and
/// returns the tasks it decoded.
fn drain<F: Fn(&DecodeTask) -> Result<Vec<u8>, String>>(
    reg: &mut Decoder,
    slot: usize,
    codec: F,
) -> Vec<DecodeTask> {
    let mut done = Vec::new();
    while let Some(task) = reg.next_task(slot) {
        let out = codec(&task);
        reg.complete_task(slot, task, out);
        done.push(task);
    }
    done
}

fn ready(reg: &Decoder, slot: usize, key: FrameKey) -> Arc<Vec<u8>> {
    match reg.poll_frame(slot, key) {
        FramePoll::Ready(b) => b,
        FramePoll::Waiting => panic!("frame still waiting"),
        FramePoll::Missing => panic!("frame missing"),
    }
}

fn key(index: u64, width: u32, height: u32) -> FrameKey {
    FrameKey { index, width, height }
}

#[test]
fn test() {
    let mut reg = Decoder::new(GIB4);
    let slot = reg.decoder("~/Videos/1080p.mp4".to_string(), 1920, 1080);
    let gen = reg.request_frame(slot, 1920, 1080, 600);
    assert_eq!(gen, Some(1));
    drain(&mut reg, slot, |t| Ok(decoded(t.key.width, t.key.height, 7)));
    let frame = ready(&reg, slot, key(600, 1920, 1080));
    assert_eq!(frame.len(), 1920 * 1080 * 4);
}

#[test]
fn cold_fetch() {
    let mut reg = Decoder::new(GIB4);
    let slot = reg.decoder("v.mp4".to_string(), 1920, 1080);
    assert!(matches!(reg.poll_frame(slot, key(600, 1920, 1080)), FramePoll::Missing));
    reg.request_frame(slot, 1920, 1080, 600);
    assert!(matches!(reg.poll_frame(slot, key(600, 1920, 1080)), FramePoll::Waiting));
    let calls = drain(&mut reg, slot, |t| Ok(decoded(t.key.width, t.key.height, 1)));
    assert_eq!(calls.len(), 1);
    assert_eq!(calls[0].key, key(600, 1920, 1080));
    let frame = ready(&reg, slot, key(600, 1920, 1080));
    assert_eq!(frame.len(), 8_294_400);
    assert_eq!(reg.cache_total(), 8_294_400);
}

#[test]
fn warm_hit() {
    let mut reg = Decoder::new(GIB4);
    let slot = reg.decoder("v.mp4".to_string(), 1920, 1080);
    reg.request_frame(slot, 1920, 1080, 600);
    drain(&mut reg, slot, |t| Ok(decoded(t.key.width, t.key.height, 1)));
    let first = ready(&reg, slot, key(600, 1920, 1080));
    reg.request_frame(slot, 1920, 1080, 600);
    let calls = drain(&mut reg, slot, |t| Ok(decoded(t.key.width, t.key.height, 2)));
    assert!(calls.is_empty());
    let second = ready(&reg, slot, key(600, 1920, 1080));
    assert!(Arc::ptr_eq(&first, &second));
}

#[test]
fn scrub_preemption() {
    let mut reg = Decoder::new(GIB4);
    let slot = reg.decoder("v.mp4".to_string(), 1920, 1080);
    reg.request_frame(slot, 1920, 1080, 100);
    reg.request_frame(slot, 1920, 1080, 800);
    let calls = drain(&mut reg, slot, |t| Ok(decoded(t.key.width, t.key.height, t.key.index as u8)));
    assert_eq!(calls.len(), 1);
    assert_eq!(calls[0].key.index, 800);
    assert_eq!(ready(&reg, slot, key(800, 1920, 1080))[0], (800u64 as u8));
    // The waiter for frame 100 finds nothing on its way and asks again.
    assert!(matches!(reg.poll_frame(slot, key(100, 1920, 1080)), FramePoll::Missing));
    reg.request_frame(slot, 1920, 1080, 100);
    let calls = drain(&mut reg, slot, |t| Ok(decoded(t.key.width, t.key.height, t.key.index as u8)));
    assert_eq!(calls.len(), 1);
    assert_eq!(ready(&reg, slot, key(100, 1920, 1080))[0], 100);
}

#[test]
fn capacity_eviction() {
    let mut reg = Decoder::new(16_777_216);
    let slot = reg.decoder("v.mp4".to_string(), 1920, 1080);
    for i in 0..10u64 {
        reg.request_frame(slot, 1920, 1080, i * 10);
        drain(&mut reg, slot, |t| Ok(decoded(t.key.width, t.key.height, 3)));
        assert!(reg.cache_total() <= 16_777_216);
    }
    let mut present = 0;
    for i in 0..10u64 {
        if let FramePoll::Ready(_) = reg.poll_frame(slot, key(i * 10, 1920, 1080)) {
            present += 1;
        }
    }
    assert!(10 - present >= 8);
    assert!(matches!(reg.poll_frame(slot, key(90, 1920, 1080)), FramePoll::Ready(_)));
    assert!(reg.cache_total() <= 16_777_216);
}

#[test]
fn eviction_keeps_single_oversized_frame() {
    let mut reg = Decoder::new(1000);
    let slot = reg.decoder("v.mp4".to_string(), 64, 64);
    reg.request_frame(slot, 64, 64, 1);
    drain(&mut reg, slot, |t| Ok(decoded(t.key.width, t.key.height, 1)));
    reg.request_frame(slot, 64, 64, 2);
    drain(&mut reg, slot, |t| Ok(decoded(t.key.width, t.key.height, 2)));
    assert!(matches!(reg.poll_frame(slot, key(1, 64, 64)), FramePoll::Missing));
    assert!(matches!(reg.poll_frame(slot, key(2, 64, 64)), FramePoll::Ready(_)));
    assert_eq!(reg.cache_total(), 64 * 64 * 4);
}

#[test]
fn eviction_drops_least_recently_used() {
    let mut reg = Decoder::new(3 * 16 * 16 * 4);
    let slot = reg.decoder("v.mp4".to_string(), 16, 16);
    for i in 0..3u64 {
        reg.request_frame(slot, 16, 16, i);
        drain(&mut reg, slot, |t| Ok(decoded(t.key.width, t.key.height, 0)));
    }
    // Touch frame 0 so that frame 1 becomes the oldest.
    reg.request_frame(slot, 16, 16, 0);
    reg.request_frame(slot, 16, 16, 3);
    drain(&mut reg, slot, |t| Ok(decoded(t.key.width, t.key.height, 0)));
    assert!(matches!(reg.poll_frame(slot, key(1, 16, 16)), FramePoll::Missing));
    assert!(matches!(reg.poll_frame(slot, key(0, 16, 16)), FramePoll::Ready(_)));
    assert!(matches!(reg.poll_frame(slot, key(2, 16, 16)), FramePoll::Ready(_)));
    assert!(matches!(reg.poll_frame(slot, key(3, 16, 16)), FramePoll::Ready(_)));
}

#[test]
fn codec_error() {
    let mut reg = Decoder::new(GIB4);
    let slot = reg.decoder("v.mp4".to_string(), 1920, 1080);
    reg.request_frame(slot, 1920, 1080, 5);
    drain(&mut reg, slot, |_| Err("decode failed".to_string()));
    let frame = ready(&reg, slot, key(5, 1920, 1080));
    assert_eq!(frame.len(), 4 * 1920 * 1080);
    assert_eq!(&frame[0..4], &[0, 0, 128, 255]);
    let last = (1079 * 1920 + 1919) * 4;
    assert_eq!(&frame[last..last + 4], &[254, 254, 128, 255]);
}

#[test]
fn wrong_size_frame_becomes_dummy() {
    let mut reg = Decoder::new(GIB4);
    let slot = reg.decoder("v.mp4".to_string(), 32, 16);
    reg.request_frame(slot, 32, 16, 9);
    drain(&mut reg, slot, |_| Ok(vec![1u8; 10]));
    let frame = ready(&reg, slot, key(9, 32, 16));
    assert_eq!(frame.len(), 4 * 32 * 16);
    assert_eq!(*frame, generate_dummy_frame(32, 16));
}

#[test]
fn index_zero_concurrency() {
    let mut reg = Decoder::new(GIB4);
    let slot = reg.decoder("v.mp4".to_string(), 1920, 1080);
    for _ in 0..16 {
        reg.request_frame(slot, 1920, 1080, 0);
    }
    let calls = drain(&mut reg, slot, |t| Ok(decoded(t.key.width, t.key.height, 9)));
    assert_eq!(calls.len(), 1);
    assert_eq!(calls[0].key.index, 0);
    let first = ready(&reg, slot, key(0, 1920, 1080));
    for _ in 0..16 {
        reg.request_frame(slot, 1920, 1080, 0);
        assert!(drain(&mut reg, slot, |t| Ok(decoded(t.key.width, t.key.height, 1))).is_empty());
        assert!(Arc::ptr_eq(&first, &ready(&reg, slot, key(0, 1920, 1080))));
    }
}

#[test]
fn stale_decode_does_not_overwrite() {
    let mut c = CachedDecoder::new("v.mp4".to_string(), 8, 8);
    let mut meter = CapacityMeter { total: 0, max: GIB4 };
    assert_eq!(c.request_frame(&mut meter, 8, 8, 5), Some(1));
    let t1 = c.next_task().unwrap();
    assert_eq!(t1.generation, 1);
    assert_eq!(c.request_frame(&mut meter, 8, 8, 5), Some(2));
    c.complete_task(&mut meter, t1, Ok(decoded(8, 8, 1)));
    assert!(matches!(c.poll_frame(key(5, 8, 8)), FramePoll::Waiting));
    let t2 = c.next_task().unwrap();
    assert_eq!(t2.generation, 2);
    c.complete_task(&mut meter, t2, Ok(decoded(8, 8, 2)));
    match c.poll_frame(key(5, 8, 8)) {
        FramePoll::Ready(b) => assert_eq!(b[0], 2),
        _ => panic!("frame not ready"),
    }
    // A late decode of an older generation leaves the ready bytes alone.
    c.complete_task(&mut meter, t1, Ok(decoded(8, 8, 3)));
    match c.poll_frame(key(5, 8, 8)) {
        FramePoll::Ready(b) => assert_eq!(b[0], 2),
        _ => panic!("frame not ready"),
    }
    assert_eq!(meter.total, 8 * 8 * 4);
    assert_eq!(c.held(), 8 * 8 * 4);
}

#[test]
fn started_generations_increase() {
    let mut c = CachedDecoder::new("v.mp4".to_string(), 4, 4);
    let mut meter = CapacityMeter { total: 0, max: GIB4 };
    let mut last = 0;
    for i in 0..5u64 {
        c.request_frame(&mut meter, 4, 4, i);
        let t = c.next_task().unwrap();
        assert!(t.generation > last);
        last = t.generation;
        c.complete_task(&mut meter, t, Ok(decoded(4, 4, 0)));
    }
    assert_eq!(c.generation(), 5);
}

#[test]
fn get_frame_uses_default_size() {
    let mut c = CachedDecoder::new("v.mp4".to_string(), 4, 2);
    let mut meter = CapacityMeter { total: 0, max: GIB4 };
    assert_eq!(c.get_frame(&mut meter, 3), Some(1));
    let t = c.next_task().unwrap();
    assert_eq!(t.key, key(3, 4, 2));
    assert_eq!(c.path(), "v.mp4");
    assert_eq!((c.width(), c.height()), (4, 2));
}

#[test]
fn registry_one_cache_per_path() {
    let mut reg = Decoder::new(GIB4);
    let a = reg.decoder("a.mp4".to_string(), 8, 8);
    let b = reg.decoder("b.mp4".to_string(), 8, 8);
    let a2 = reg.decoder("a.mp4".to_string(), 16, 16);
    assert_eq!(a, a2);
    assert_ne!(a, b);
    assert_eq!(reg.len(), 2);
    assert_eq!(reg.get(a).width(), 8);
    assert_eq!(reg.max_cache_size(), GIB4);
}

#[test]
fn meter_is_shared_across_files() {
    let mut reg = Decoder::new(GIB4);
    let a = reg.decoder("a.mp4".to_string(), 8, 8);
    let b = reg.decoder("b.mp4".to_string(), 8, 8);
    reg.request_frame(a, 8, 8, 0);
    reg.request_frame(b, 8, 8, 0);
    assert_eq!(reg.cache_total(), 2 * 8 * 8 * 4);
}

#[test]
fn hit_does_not_evict_and_collect_garbage_does() {
    let frame = 16 * 16 * 4;
    let mut reg = Decoder::new(2 * frame);
    let a = reg.decoder("a.mp4".to_string(), 16, 16);
    let b = reg.decoder("b.mp4".to_string(), 16, 16);
    reg.request_frame(a, 16, 16, 1);
    drain(&mut reg, a, |t| Ok(decoded(t.key.width, t.key.height, 1)));
    reg.request_frame(a, 16, 16, 2);
    drain(&mut reg, a, |t| Ok(decoded(t.key.width, t.key.height, 2)));
    reg.request_frame(b, 16, 16, 3);
    drain(&mut reg, b, |t| Ok(decoded(t.key.width, t.key.height, 3)));
    assert_eq!(reg.cache_total(), 3 * frame as u128);
    // A hit on frame 1 marks it used but evicts nothing.
    reg.request_frame(a, 16, 16, 1);
    assert_eq!(reg.cache_total(), 3 * frame as u128);
    assert!(matches!(reg.poll_frame(a, key(2, 16, 16)), FramePoll::Ready(_)));
    // The periodic step drops frame 2, the least recently used of this file.
    assert_eq!(reg.collect_garbage(a), Some(key(1, 16, 16)));
    assert_eq!(reg.cache_total(), 2 * frame as u128);
    assert!(matches!(reg.poll_frame(a, key(2, 16, 16)), FramePoll::Missing));
    assert!(matches!(reg.poll_frame(a, key(1, 16, 16)), FramePoll::Ready(_)));
    assert!(matches!(reg.poll_frame(b, key(3, 16, 16)), FramePoll::Ready(_)));
}

#[test]
fn collect_garbage_on_empty_cache() {
    let mut reg = Decoder::new(0);
    let a = reg.decoder("a.mp4".to_string(), 16, 16);
    assert_eq!(reg.collect_garbage(a), None);
    assert_eq!(reg.cache_total(), 0);
}

#[test]
fn collect_garbage_within_budget_keeps_all() {
    let mut reg = Decoder::new(GIB4);
    let a = reg.decoder("a.mp4".to_string(), 16, 16);
    reg.request_frame(a, 16, 16, 1);
    reg.request_frame(a, 16, 16, 2);
    assert_eq!(reg.collect_garbage(a), Some(key(2, 16, 16)));
    assert_eq!(reg.cache_total(), 2 * 16 * 16 * 4);
}

#[test]
fn displaced_task_key_leaves_pending() {
    let mut c = CachedDecoder::new("v.mp4".to_string(), 4, 4);
    let mut meter = CapacityMeter { total: 0, max: GIB4 };
    c.request_frame(&mut meter, 4, 4, 100);
    assert!(matches!(c.poll_frame(key(100, 4, 4)), FramePoll::Waiting));
    c.request_frame(&mut meter, 4, 4, 800);
    assert!(matches!(c.poll_frame(key(100, 4, 4)), FramePoll::Missing));
    assert!(matches!(c.poll_frame(key(800, 4, 4)), FramePoll::Waiting));
}
