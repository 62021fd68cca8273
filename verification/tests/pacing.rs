use moonshine_core::video::pacer::{Pacer, SendChunk, SendEvent, ShardBatch};
use moonshine_core::video::rate::RateFactor;

fn pacer(rate: u64, max_gso_segments: usize) -> Pacer {
    Pacer { rate, min_gap_nanos: 1_000_000, max_gso_segments }
}

fn batch(count: usize, size: usize) -> ShardBatch {
    let bytes: Vec<u8> = (0..count * size).map(|i| (i % 251) as u8).collect();
    ShardBatch::new(bytes, count, size).unwrap()
}

fn schedule(pacer: &Pacer, batch: &ShardBatch) -> Vec<SendChunk> {
    let mut send = pacer.begin(batch);
    let mut chunks = Vec::new();
    while let Some(chunk) = send.next_chunk() {
        chunks.push(chunk);
    }
    assert_eq!(send.next_chunk(), None);
    chunks
}

#[test]
fn batches_hold_whole_shards() {
    assert!(ShardBatch::new(vec![0; 10], 5, 2).is_some());
    assert!(ShardBatch::new(vec![0; 11], 5, 2).is_none());
    assert!(ShardBatch::new(vec![], 0, 7).is_some());
    assert!(ShardBatch::new(vec![], usize::MAX, 2).is_none());
    let batch = batch(5, 2);
    assert_eq!((batch.shard_count(), batch.shard_size()), (5, 2));
    assert_eq!(batch.as_bytes().len(), 10);
}

#[test]
fn segments_per_send_without_pacing() {
    assert_eq!(pacer(0, 64).segs_per_send(1024), 63);
    assert_eq!(pacer(0, 10).segs_per_send(1024), 10);
    assert_eq!(pacer(0, 1).segs_per_send(1024), 1);
    assert_eq!(pacer(0, 0).segs_per_send(1024), 1);
    assert_eq!(pacer(0, 64).segs_per_send(65_535), 1);
    assert_eq!(pacer(0, 64).segs_per_send(70_000), 1);
    assert_eq!(pacer(0, 64).segs_per_send(0), 64);
}

#[test]
fn segments_per_send_with_pacing() {
    // Ten megabytes per second: 10,000 bytes per millisecond.
    assert_eq!(pacer(10_000_000, 64).segs_per_send(1000), 10);
    assert_eq!(pacer(10_000_000, 64).segs_per_send(1001), 9);
    assert_eq!(pacer(10_000_000, 4).segs_per_send(1000), 4);
    assert_eq!(pacer(10_000_000, 64).segs_per_send(20_000), 1);
    assert_eq!(pacer(1, 64).segs_per_send(1000), 1);
    assert_eq!(pacer(u64::MAX, 64).segs_per_send(1000), 64);
}

#[test]
fn empty_batch_sends_nothing() {
    assert_eq!(schedule(&pacer(0, 64), &batch(0, 1000)), vec![]);
    assert_eq!(schedule(&pacer(1000, 64), &batch(0, 1000)), vec![]);
}

#[test]
fn unpaced_batch_fills_each_send() {
    assert_eq!(
        schedule(&pacer(0, 4), &batch(9, 100)),
        vec![
            SendChunk { start: 0, end: 400, segment_size: Some(100), due_nanos: None },
            SendChunk { start: 400, end: 800, segment_size: Some(100), due_nanos: None },
            SendChunk { start: 800, end: 900, segment_size: None, due_nanos: None },
        ]
    );
}

#[test]
fn paced_batch_is_due_as_it_drains() {
    assert_eq!(
        schedule(&pacer(2_000_000, 64), &batch(5, 1000)),
        vec![
            SendChunk { start: 0, end: 2000, segment_size: Some(1000), due_nanos: None },
            SendChunk { start: 2000, end: 4000, segment_size: Some(1000), due_nanos: Some(1_000_000) },
            SendChunk { start: 4000, end: 5000, segment_size: None, due_nanos: Some(2_000_000) },
        ]
    );
}

#[test]
fn slow_rate_sends_single_shards() {
    let chunks = schedule(&pacer(3, 64), &batch(3, 10));
    let dues: Vec<Option<u64>> = chunks.iter().map(|c| c.due_nanos).collect();
    assert_eq!(dues, vec![None, Some(3_333_333_333), Some(6_666_666_666)]);
    assert!(chunks.iter().all(|c| c.segment_size.is_none()));
}

#[test]
fn small_frame_goes_out_at_once() {
    let chunks = schedule(&pacer(10_000_000, 64), &batch(10, 1000));
    assert_eq!(chunks.len(), 1);
    assert_eq!(chunks[0].due_nanos, None);
}

#[test]
fn every_byte_goes_out_once() {
    for rate in [0u64, 1, 1_000_000, 50_000_000] {
        for (count, size) in [(1usize, 1usize), (7, 3), (100, 1392), (65, 1000), (3, 70_000)] {
            let pacer = pacer(rate, 64);
            let batch = batch(count, size);
            let mut wire: Vec<u8> = Vec::new();
            for chunk in schedule(&pacer, &batch) {
                wire.extend_from_slice(batch.chunk_bytes(&chunk));
            }
            assert_eq!(wire, batch.as_bytes());
        }
    }
}

#[test]
fn sends_fit_gso_and_stay_one_gap_apart() {
    let pacer = pacer(30_000_000, 64);
    let chunks = schedule(&pacer, &batch(500, 1392));
    let mut last = 0u64;
    for chunk in chunks {
        assert!(chunk.end - chunk.start <= 65_535);
        assert_eq!(chunk.segment_size.is_some(), chunk.end - chunk.start > 1392);
        let due = chunk.due_nanos.unwrap_or(0);
        assert!(due >= last && due - last <= 1_000_001);
        last = due;
    }
    assert!(last <= 500 * 1392 * 1000 / 30);
}

#[test]
fn shards_without_bytes_are_sent_too() {
    let chunks = schedule(&pacer(5, 2), &batch(3, 0));
    assert_eq!(chunks.len(), 3);
    assert_eq!(chunks[2], SendChunk { start: 0, end: 0, segment_size: None, due_nanos: Some(0) });
}

#[test]
fn sleeps_only_before_distant_deadlines() {
    let pacer = pacer(1, 64);
    let chunk = SendChunk { start: 1, end: 2, segment_size: None, due_nanos: Some(3_000_000) };
    assert_eq!(pacer.sleep_until(&chunk, 0), Some(3_000_000));
    assert_eq!(pacer.sleep_until(&chunk, 2_000_000), Some(3_000_000));
    assert_eq!(pacer.sleep_until(&chunk, 2_000_001), None);
    assert_eq!(pacer.sleep_until(&chunk, 2_300_000), None);
    assert_eq!(pacer.sleep_until(&chunk, 2_750_000), None);
    assert_eq!(pacer.sleep_until(&chunk, 3_000_000), None);
    assert_eq!(pacer.sleep_until(&chunk, u128::MAX), None);
    let first = SendChunk { start: 0, end: 1, segment_size: None, due_nanos: None };
    assert_eq!(pacer.sleep_until(&first, 0), None);
}

#[test]
fn the_gap_of_a_pacer_is_its_shortest_sleep() {
    let chunk = SendChunk { start: 1, end: 2, segment_size: None, due_nanos: Some(3_000_000) };
    let coarse = Pacer { rate: 1, min_gap_nanos: 2_500_000, max_gso_segments: 64 };
    assert_eq!(coarse.sleep_until(&chunk, 500_000), Some(3_000_000));
    assert_eq!(coarse.sleep_until(&chunk, 500_001), None);
}

#[test]
fn frame_drains_within_its_interval() {
    // 12 Mbit/s at 60 frames per second: 25,000 bytes per frame, at factor one.
    let pacer = pacer(1_500_000, 64);
    for chunk in schedule(&pacer, &batch(25, 1000)) {
        assert!(chunk.due_nanos.unwrap_or(0) * 60 <= 1_000_000_000);
    }
}

#[test]
fn frame_drains_in_its_interval_over_the_factor() {
    // 12 Mbit/s at 60 frames per second: 25,000 bytes per frame.
    let mut last = u64::MAX;
    for value in [1u64, 2, 4, 8] {
        let factor = RateFactor { bits: (value as f32).to_bits() };
        let pacer = Pacer::new(factor, 12_000_000, 64);
        let chunks = schedule(&pacer, &batch(25, 1000));
        let due = chunks.last().unwrap().due_nanos.unwrap_or(0);
        assert!(due * 60 * value <= 1_000_000_000);
        assert!(due < last);
        last = due;
    }
    // At eight times the bitrate, 12 shards go in a send: the last is due after 24,000 bytes.
    assert_eq!(last, 2_000_000);
}

#[test]
fn failed_sends_change_nothing() {
    let pacer = pacer(2_000_000, 64);
    let batch = batch(9, 1000);
    let all = schedule(&pacer, &batch);
    assert_eq!(all.len(), 5);
    for failing in 0..32u32 {
        let mut send = pacer.begin(&batch);
        let mut attempts: Vec<SendChunk> = Vec::new();
        let mut event: SendEvent<usize> = SendEvent::Begun;
        let mut expected: Option<usize> = None;
        loop {
            let step = send.step(event);
            assert_eq!(step.failure, expected);
            match step.next {
                Some(chunk) => {
                    let i = attempts.len();
                    attempts.push(chunk);
                    if failing >> i & 1 == 1 {
                        event = SendEvent::Failed(i);
                        expected = Some(i);
                    } else {
                        event = SendEvent::Sent;
                        expected = None;
                    }
                }
                None => break,
            }
        }
        assert_eq!(attempts, all);
    }
}
