use vince::pipeline::{AudioPipeline, RingBuffer, BLOCK_SIZE};
use vince::sample::{Frame, Sample};

fn f(x: f32) -> Frame {
    let s = Sample::from_bits(x.to_bits());
    Frame { left: s, right: s }
}

#[test]
fn block_fires_exactly_at_block_size() {
    let mut pl = AudioPipeline::new();
    // One frame short of a block: nothing fires.
    let most: Vec<Frame> = (0..BLOCK_SIZE - 1).map(|i| f(i as f32)).collect();
    assert!(pl.push_frames(&most).is_none());
    assert_eq!(pl.pending_len(), BLOCK_SIZE - 1);
    // The frame that completes the block triggers exactly one hand-off
    // and resets the accumulator.
    let block = pl.push_frames(&vec![f(511.0)]).expect("block must fire");
    assert_eq!(block.len(), BLOCK_SIZE);
    assert_eq!(block[0], f(0.0));
    assert_eq!(block[BLOCK_SIZE - 1], f(511.0));
    assert_eq!(pl.pending_len(), 0);
}

#[test]
fn whole_block_at_once_fires_once() {
    let mut pl = AudioPipeline::new();
    let all: Vec<Frame> = (0..BLOCK_SIZE).map(|i| f(i as f32)).collect();
    let block = pl.push_frames(&all).expect("block must fire");
    assert_eq!(block.len(), BLOCK_SIZE);
    assert_eq!(pl.pending_len(), 0);
}

#[test]
fn partial_blocks_persist_across_ticks() {
    let mut pl = AudioPipeline::new();
    assert!(pl.push_frames(&vec![f(1.0)]).is_none());
    assert!(pl.push_frames(&vec![f(2.0)]).is_none());
    assert_eq!(pl.pending_len(), 2);
}

#[test]
fn enqueued_blocks_drain_in_order() {
    let mut pl = AudioPipeline::new();
    pl.enqueue_block(&vec![f(1.0), f(2.0)]);
    pl.enqueue_block(&vec![f(3.0)]);
    assert_eq!(pl.stream_len(), 3);
    assert_eq!(pl.pop_frame(), Some(f(1.0)));
    assert_eq!(pl.pop_frame(), Some(f(2.0)));
    assert_eq!(pl.pop_frame(), Some(f(3.0)));
    assert_eq!(pl.pop_frame(), None);
}

#[test]
fn full_ring_overwrites_oldest() {
    let mut rb = RingBuffer::new(4);
    for i in 0..6 {
        rb.push(f(i as f32));
    }
    assert_eq!(rb.len(), 4);
    assert_eq!(rb.capacity(), 4);
    // The two oldest frames were overwritten, never blocking the writer.
    assert_eq!(rb.pop(), Some(f(2.0)));
    assert_eq!(rb.pop(), Some(f(3.0)));
    assert_eq!(rb.pop(), Some(f(4.0)));
    assert_eq!(rb.pop(), Some(f(5.0)));
    assert_eq!(rb.pop(), None);
}

#[test]
fn ring_wraps_after_interleaved_pops() {
    let mut rb = RingBuffer::new(3);
    rb.push(f(1.0));
    rb.push(f(2.0));
    assert_eq!(rb.pop(), Some(f(1.0)));
    rb.push(f(3.0));
    rb.push(f(4.0));
    assert_eq!(rb.pop(), Some(f(2.0)));
    assert_eq!(rb.pop(), Some(f(3.0)));
    assert_eq!(rb.pop(), Some(f(4.0)));
    assert_eq!(rb.pop(), None);
}
