use command_replay::sequence_buffer::SequenceBuffer;

#[test]
fn insert_then_get_returns_the_value() {
    let mut buf: SequenceBuffer<u32> = SequenceBuffer::with_capacity(64);
    buf.insert(10, 111);
    assert_eq!(buf.get(10), Some(&111));
    assert_eq!(buf.get(11), None);
    assert_eq!(buf.sequence_num(), 10);
}

#[test]
fn insert_at_zero_then_top_of_range_evicts_nothing() {
    // The later insert is older under wrapping: both stay retrievable.
    let mut buf: SequenceBuffer<u32> = SequenceBuffer::with_capacity(64);
    buf.insert(0, 1);
    buf.insert(65535, 2);
    assert_eq!(buf.get(65535), Some(&2));
    assert_eq!(buf.get(0), Some(&1));
    assert_eq!(buf.sequence_num(), 0);
}

#[test]
fn tick_zero_is_newer_than_top_of_range() {
    let mut buf: SequenceBuffer<u32> = SequenceBuffer::with_capacity(64);
    buf.insert(65535, 7);
    buf.insert(0, 8);
    assert_eq!(buf.sequence_num(), 0);
    assert_eq!(buf.get(65535), Some(&7));
    assert_eq!(buf.get(0), Some(&8));
}

#[test]
fn newer_insert_pushes_old_ticks_out_of_window() {
    let mut buf: SequenceBuffer<u32> = SequenceBuffer::with_capacity(64);
    buf.insert(0, 1);
    buf.insert(100, 2);
    assert_eq!(buf.get(0), None);
    assert_eq!(buf.get(100), Some(&2));
    assert_eq!(buf.sequence_num(), 100);
}

#[test]
fn entry_count_never_exceeds_capacity() {
    let mut buf: SequenceBuffer<u32> = SequenceBuffer::with_capacity(64);
    for t in 0..200u32 {
        buf.insert(t as u16, t);
        assert!(buf.get_entries_count() <= 64);
    }
    assert_eq!(buf.get_entries_count(), 64);
}

#[test]
fn too_old_tick_is_silently_dropped() {
    let mut buf: SequenceBuffer<u32> = SequenceBuffer::with_capacity(64);
    buf.insert(100, 1);
    buf.insert(10, 2);
    assert_eq!(buf.get(10), None);
    assert_eq!(buf.get(100), Some(&1));
    assert_eq!(buf.sequence_num(), 100);
}

#[test]
fn remove_until_clears_strictly_older_entries() {
    let mut buf: SequenceBuffer<u32> = SequenceBuffer::with_capacity(64);
    for t in 20..30u16 {
        buf.insert(t, t as u32);
    }
    buf.remove_until(25);
    for t in 20..25u16 {
        assert_eq!(buf.get(t), None);
    }
    for t in 25..30u16 {
        assert_eq!(buf.get(t), Some(&(t as u32)));
    }
}

#[test]
fn tick_half_the_circle_away_is_neither_newer_nor_in_window() {
    let mut buf: SequenceBuffer<u32> = SequenceBuffer::with_capacity(64);
    buf.insert(100, 1);
    buf.insert(32868, 2);
    assert_eq!(buf.get(32868), None);
    assert_eq!(buf.get(100), Some(&1));
    assert_eq!(buf.sequence_num(), 100);
}

#[test]
fn get_mut_edits_the_stored_value_in_place() {
    let mut buf: SequenceBuffer<u32> = SequenceBuffer::with_capacity(64);
    buf.insert(4, 10);
    if let Some(v) = buf.get_mut(4) {
        *v = 99;
    }
    assert_eq!(buf.get(4), Some(&99));
    assert!(buf.get_mut(5).is_none());
}

#[test]
fn same_tick_insert_replaces_the_entry() {
    let mut buf: SequenceBuffer<u32> = SequenceBuffer::with_capacity(64);
    buf.insert(5, 1);
    buf.insert(5, 2);
    assert_eq!(buf.get(5), Some(&2));
    assert_eq!(buf.get_entries_count(), 1);
}
