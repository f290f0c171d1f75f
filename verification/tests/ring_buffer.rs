use fanout::ring_buffer::Region;
use fanout::ring_buffer::RingBuffer;
use fanout::ring_buffer::RingBufferCursor;

#[test]
fn unused_slices_contiguous_when_empty() {
    let buffer = RingBuffer::new(8);

    let (first, second) = buffer.unused_slices();
    assert_eq!(first.offset, 0);
    assert_eq!(first.len, 8);
    assert_eq!(second.len, 0);
}

#[test]
fn unused_slices_noncontiguous_when_empty() {
    let mut buffer = RingBuffer::new(8);
    buffer.cursor = RingBufferCursor { inner: 3, capacity: 8 };

    let (first, second) = buffer.unused_slices();
    assert_eq!(first.offset, 3);
    assert_eq!(first.len, 5);
    assert_eq!(second.offset, 0);
    assert_eq!(second.len, 3);
}

#[test]
fn unused_slices_contiguous_when_partially_filled() {
    let mut buffer = RingBuffer::new(8);
    buffer.cursor = RingBufferCursor { inner: 6, capacity: 8 };
    buffer.len = 3;

    let (first, second) = buffer.unused_slices();
    assert_eq!(first.offset, 1);
    assert_eq!(first.len, 5);
    assert_eq!(second.len, 0);
}

#[test]
fn unused_slices_noncontiguous_when_partially_filled() {
    let mut buffer = RingBuffer::new(8);
    buffer.cursor = RingBufferCursor { inner: 2, capacity: 8 };
    buffer.len = 5;

    let (first, second) = buffer.unused_slices();
    assert_eq!(first.offset, 7);
    assert_eq!(first.len, 1);
    assert_eq!(second.offset, 0);
    assert_eq!(second.len, 2);
}

#[test]
fn unused_slices_when_full() {
    let mut buffer = RingBuffer::new(8);
    buffer.len = 8;

    let (first, second) = buffer.unused_slices();
    assert_eq!(first.len, 0);
    assert_eq!(second.len, 0);
}

#[test]
fn slices_from_when_empty() {
    let buffer = RingBuffer::new(8);

    let (first, second) = buffer.slices_from(RingBufferCursor { inner: 7, capacity: 8 });
    assert_eq!(first.len(), 0);
    assert_eq!(second.len(), 0);
}

#[test]
fn slices_from_contiguous_when_partially_filled() {
    let mut buffer = RingBuffer::new(8);
    buffer.data[2] = 0;
    buffer.data[3] = 1;

    buffer.cursor = RingBufferCursor { inner: 2, capacity: 8 };
    buffer.len = 2;

    let empty: &[u8] = &[];
    let (first, second) = buffer.slices_from(RingBufferCursor { inner: 3, capacity: 8 });
    assert_eq!(first, &[1]);
    assert_eq!(second, empty);
}

#[test]
fn slices_from_noncontiguous_when_partially_filled() {
    let mut buffer = RingBuffer::new(8);
    buffer.data[5] = 0;
    buffer.data[6] = 1;
    buffer.data[7] = 2;
    buffer.data[0] = 3;
    buffer.data[1] = 4;

    buffer.cursor = RingBufferCursor { inner: 5, capacity: 8 };
    buffer.len = 5;

    let (first, second) = buffer.slices_from(RingBufferCursor { inner: 7, capacity: 8 });
    assert_eq!(first, &[2]);
    assert_eq!(second, &[3, 4]);
}

#[test]
fn cursor_add_wraps_around_capacity() {
    let c = RingBufferCursor { inner: 6, capacity: 8 };
    assert_eq!(c.add(0).inner, 6);
    assert_eq!(c.add(2).inner, 0);
    assert_eq!(c.add(5).inner, 3);
    assert_eq!(c.add(8).inner, 6);
    assert_eq!(c.add(21).inner, 3);
    let mut d = RingBufferCursor { inner: 7, capacity: 8 };
    d.add_assign(3);
    assert_eq!(d.inner, 2);
}

#[test]
fn written_bytes_read_back_at_their_positions() {
    let mut buffer = RingBuffer::new(5);
    buffer.write_free(0, &[10, 20, 30]);
    buffer.assume_init(3);
    let (first, second) = buffer.slices_from(buffer.start());
    assert_eq!(first, &[10, 20, 30]);
    assert_eq!(second.len(), 0);

    buffer.remove(2);
    buffer.write_free(0, &[40, 50]);
    buffer.assume_init(2);
    let (first, second) = buffer.slices_from(buffer.start());
    let mut all = first.to_vec();
    all.extend_from_slice(second);
    assert_eq!(all, vec![30, 40, 50]);
}

#[test]
fn len_saturates_at_capacity() {
    let mut buffer = RingBuffer::new(4);
    buffer.assume_init(3);
    assert_eq!(buffer.len(), 3);
    buffer.assume_init(5);
    assert_eq!(buffer.len(), 4);
    assert!(buffer.is_full());
}

#[test]
fn remove_more_than_len_acts_as_remove_len() {
    let mut a = RingBuffer::new(8);
    a.write_free(0, &[1, 2, 3, 4]);
    a.assume_init(4);
    let mut b = RingBuffer::new(8);
    b.write_free(0, &[1, 2, 3, 4]);
    b.assume_init(4);

    a.remove(10);
    b.remove(4);
    assert_eq!(a.len(), 0);
    assert_eq!(b.len(), 0);
    assert_eq!(a.start().inner, b.start().inner);
    assert_eq!(a.start().inner, 4);
}

#[test]
fn unused_total_and_readable_total_partition_capacity() {
    let mut buffer = RingBuffer::new(8);
    buffer.write_free(0, &[9, 9, 9, 9, 9, 9]);
    buffer.assume_init(6);
    buffer.remove(4);
    buffer.write_free(0, &[7, 7, 7]);
    buffer.assume_init(3);

    let (a, b): (Region, Region) = buffer.unused_slices();
    assert_eq!(a.len + b.len, 8 - buffer.len());
    let (first, second) = buffer.slices_from(buffer.start());
    assert_eq!(first.len() + second.len(), buffer.len());
}

#[test]
fn end_cursor_reads_nothing_until_append() {
    let mut buffer = RingBuffer::new(8);
    buffer.write_free(0, &[1, 2, 3]);
    buffer.assume_init(3);
    let at_end = buffer.end();

    let (first, second) = buffer.slices_from(at_end);
    assert_eq!(first.len(), 0);
    assert_eq!(second.len(), 0);

    buffer.write_free(0, &[4, 5]);
    buffer.assume_init(2);
    let (first, second) = buffer.slices_from(at_end);
    assert_eq!(first, &[4, 5]);
    assert_eq!(second.len(), 0);
}

#[test]
fn full_buffer_offers_no_unused_space() {
    let mut buffer = RingBuffer::new(4);
    buffer.write_free(0, &[1, 2, 3, 4]);
    buffer.assume_init(4);
    assert!(buffer.is_full());

    let (a, b) = buffer.unused_slices();
    assert_eq!(a.len, 0);
    assert_eq!(b.len, 0);

    buffer.remove(1);
    let (a, b) = buffer.unused_slices();
    assert_eq!(a.len + b.len, 1);
}

#[test]
fn end_to_end_wraparound_read() {
    let mut buffer = RingBuffer::new(8);
    buffer.write_free(0, &[0, 1, 2, 3, 4, 5, 6, 7]);
    buffer.assume_init(8);
    buffer.remove(3);

    let cursor = buffer.start().add(2);
    assert_eq!(cursor.inner, 5);
    let (first, second) = buffer.slices_from(cursor);
    assert_eq!(first, &[5, 6, 7]);
    assert_eq!(second.len(), 0);

    buffer.write_free(0, &[0, 1, 2]);
    buffer.assume_init(3);

    let cursor = buffer.start().add(3);
    assert_eq!(cursor.inner, 6);
    let (first, second) = buffer.slices_from(cursor);
    assert_eq!(first, &[6, 7]);
    assert_eq!(second, &[0, 1, 2]);
}
