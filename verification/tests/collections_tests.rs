use lib::ring_buffer::RingBuffer;
use lib::step_range::StepRange;

#[test]
fn normal_range() {
    let mut range = StepRange::align_from(0..5, 2);
    assert_eq!(range.next(), Some(0));
    assert_eq!(range.next(), Some(2));
    assert_eq!(range.next(), Some(4));
    assert_eq!(range.next(), None);
}

#[test]
fn non_inclusive() {
    let mut range = StepRange::align_from(0..2, 2);
    assert_eq!(range.next(), Some(0));
    assert_eq!(range.next(), None);
}

#[test]
fn overflowing_range() {
    let mut range = StepRange::align_from(0xffff_ffe0..0xffff_fff1, 0x10);
    assert_eq!(range.next(), Some(0xffff_ffe0));
    assert_eq!(range.next(), Some(0xffff_fff0));
    assert_eq!(range.next(), None);
}

#[test]
fn overflowing_range_at_usize_max() {
    let mut range = StepRange::align_from(usize::MAX - 0x1f..usize::MAX - 0xe, 0x10);
    assert_eq!(range.next(), Some(usize::MAX - 0x1f));
    assert_eq!(range.next(), Some(usize::MAX - 0xf));
    assert_eq!(range.next(), None);
}

#[test]
fn range_aligns_start_down() {
    let mut range = StepRange::align_from(0x1234..0x3000, 0x1000);
    assert_eq!(range.next(), Some(0x1000));
    assert_eq!(range.next(), Some(0x2000));
    assert_eq!(range.next(), None);
    let mut plain = StepRange::new(3, 10, 3);
    assert_eq!(plain.next(), Some(3));
    assert_eq!(plain.next(), Some(6));
    assert_eq!(plain.next(), Some(9));
    assert_eq!(plain.next(), None);
}

#[test]
fn single_push() {
    let mut buf = RingBuffer::<10>::new();
    buf.push(2);
    assert_eq!(buf.producer, 1);
    assert_eq!(buf.used_len, 1);
    assert_eq!(buf.data[0], 2);
}

#[test]
fn push_pop() {
    let mut buf = RingBuffer::<10>::new();
    buf.push(2);
    assert_eq!(buf.pop(), Some(2));
    assert_eq!(buf.producer, 1);
    assert_eq!(buf.used_len, 0);
}

#[test]
fn push_pop_push() {
    let mut buf = RingBuffer::<10>::new();
    buf.push(2);
    let _ = buf.pop();
    buf.push(3);
    assert_eq!(buf.producer, 2);
    assert_eq!(buf.used_len, 1);
    assert_eq!(buf.data[1], 3);
}

#[test]
fn pop_when_empty() {
    let mut buf = RingBuffer::<3>::new();
    assert_eq!(buf.pop(), None);
}

#[test]
fn saturation() {
    let mut buf = RingBuffer::<3>::new();
    buf.push(3);
    buf.push(4);
    buf.push(5);
    buf.push(6);
    assert_eq!(buf.pop(), Some(3));
    assert_eq!(buf.pop(), Some(4));
    assert_eq!(buf.pop(), Some(5));
    assert_eq!(buf.pop(), None);
}

#[test]
fn fifo_across_wraparound() {
    let mut buf = RingBuffer::<3>::new();
    assert_eq!(buf.free_len(), 3);
    buf.push(1);
    buf.push(2);
    assert_eq!(buf.pop(), Some(1));
    buf.push(3);
    buf.push(4);
    assert_eq!(buf.free_len(), 0);
    assert_eq!(buf.pop(), Some(2));
    assert_eq!(buf.pop(), Some(3));
    assert_eq!(buf.pop(), Some(4));
    assert_eq!(buf.free_len(), 3);
}
