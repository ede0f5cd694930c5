use qaraoke::cursor::slot_mask;
use qaraoke::ringbuffer::{new, reclaim, AtomicOption, Error, Reader, RingBuffer, Writer};

fn write_block(
    writer: &mut Writer<usize>,
    buf: &mut RingBuffer<usize>,
    first: usize,
    count: usize,
) -> usize {
    let mut session = writer.extender(buf);
    let input: Vec<usize> = (first..first + count).collect();
    let rest = session.extend(buf, input);
    session.commit(buf);
    count - rest.len()
}

fn read_block(reader: &mut Reader<usize>, buf: &mut RingBuffer<usize>, count: usize) -> Vec<usize> {
    let mut session = reader.iter(buf);
    let mut out = Vec::new();
    for _ in 0..count {
        match session.next(buf) {
            Some(v) => out.push(v),
            None => break,
        }
    }
    session.commit(buf);
    out
}

#[test]
fn test_ringbuffer_sizes() {
    let rb = RingBuffer::<u8>::new(1, 6);
    assert_eq!(rb.capacity(), 7);
    assert_eq!(rb.available(), 7);
    assert_eq!(rb.size(), 0);
}

#[test]
fn test_ringbuffer_rw() {
    let (mut buf, mut reader, mut writer) = new::<usize>(16);
    let mut r = 0;
    let mut w = 0;
    w += write_block(&mut writer, &mut buf, 0, 6);
    assert_eq!(w, 6);
    for (n, v) in read_block(&mut reader, &mut buf, 4).iter().enumerate() {
        assert_eq!(*v, n);
        r += 1;
    }
    assert_eq!(r, 4);
    w += write_block(&mut writer, &mut buf, 6, 6);
    assert_eq!(w, 12);
    for (n, v) in read_block(&mut reader, &mut buf, 7).iter().enumerate() {
        assert_eq!(*v, n + 4);
        r += 1;
    }
    assert_eq!(r, 11);
    w += write_block(&mut writer, &mut buf, 12, 10);
    assert_eq!(w, 22);
    for (n, v) in read_block(&mut reader, &mut buf, 11).iter().enumerate() {
        assert_eq!(*v, n + 11);
        r += 1;
    }
    assert_eq!(r, 22);
    assert_eq!(reader.size(&buf), 0);
}

#[test]
fn slot_mask_rounds_up_to_a_power_of_two() {
    assert_eq!(slot_mask(0), Some(1));
    assert_eq!(slot_mask(1), Some(1));
    assert_eq!(slot_mask(2), Some(1));
    assert_eq!(slot_mask(3), Some(3));
    assert_eq!(slot_mask(5), Some(7));
    assert_eq!(slot_mask(8), Some(7));
    assert_eq!(slot_mask(9), Some(15));
    assert_eq!(slot_mask(16), Some(15));
    assert_eq!(slot_mask(usize::MAX / 2 + 1), Some(usize::MAX / 2));
}

#[test]
fn slot_mask_refuses_what_does_not_fit() {
    assert_eq!(slot_mask(usize::MAX / 2 + 2), None);
    assert_eq!(slot_mask(usize::MAX), None);
}

#[test]
fn smallest_buffer_has_one_usable_slot() {
    let (mut buf, mut reader, mut writer) = new::<u32>(0);
    assert_eq!(buf.capacity(), 1);
    assert_eq!(writer.push(&mut buf, 10), Ok(()));
    assert_eq!(writer.push(&mut buf, 11), Err(11));
    assert_eq!(reader.pop(&mut buf), Some(10));
    assert_eq!(reader.pop(&mut buf), None);
}

#[test]
fn create_five_push_eight_pop_eight() {
    let (mut buf, mut reader, mut writer) = new::<u32>(5);
    assert_eq!(buf.capacity(), 7);
    for v in 0..7 {
        assert_eq!(writer.push(&mut buf, v), Ok(()));
    }
    assert_eq!(writer.push(&mut buf, 7), Err(7));
    for v in 0..7 {
        assert_eq!(reader.pop(&mut buf), Some(v));
    }
    assert_eq!(reader.pop(&mut buf), None);
}

#[test]
fn occupancy_never_exceeds_capacity() {
    let (mut buf, mut reader, mut writer) = new::<u32>(4);
    let capacity = buf.capacity();
    assert_eq!(capacity, 3);
    for round in 0..20u32 {
        let _ = writer.push(&mut buf, round);
        let _ = writer.push(&mut buf, round + 100);
        assert!(buf.size() <= capacity);
        let _ = reader.pop(&mut buf);
        assert!(buf.size() <= capacity);
    }
    assert_eq!(buf.size(), capacity - 1);
}

#[test]
fn occupied_and_available_add_up_to_capacity() {
    let (mut buf, mut reader, mut writer) = new::<u32>(8);
    assert_eq!(reader.size(&buf) + writer.size(&buf), 7);
    for v in 0..5 {
        writer.push(&mut buf, v).unwrap();
        assert_eq!(reader.size(&buf) + writer.size(&buf), 7);
        assert_eq!(buf.size() + buf.available(), buf.capacity());
    }
    assert_eq!(reader.size(&buf), 5);
    assert_eq!(writer.size(&buf), 2);
    reader.pop(&mut buf).unwrap();
    reader.pop(&mut buf).unwrap();
    assert_eq!(reader.size(&buf), 3);
    assert_eq!(writer.size(&buf), 4);
}

#[test]
fn values_come_out_in_the_order_they_went_in() {
    let (mut buf, mut reader, mut writer) = new::<String>(4);
    let mut pushed = Vec::new();
    let mut popped = Vec::new();
    for round in 0..10 {
        for k in 0..2 {
            let v = format!("{}-{}", round, k);
            if writer.push(&mut buf, v.clone()).is_ok() {
                pushed.push(v);
            }
        }
        if let Some(v) = reader.pop(&mut buf) {
            popped.push(v);
        }
        assert_eq!(popped[..], pushed[..popped.len()]);
    }
    while let Some(v) = reader.pop(&mut buf) {
        popped.push(v);
    }
    assert_eq!(popped, pushed);
}

#[test]
fn round_trip_of_a_full_buffer() {
    let (mut buf, mut reader, mut writer) = new::<u64>(32);
    let values: Vec<u64> = (1000..1031).collect();
    for v in values.iter() {
        assert_eq!(writer.push(&mut buf, *v), Ok(()));
    }
    let mut out = Vec::new();
    for _ in 0..values.len() {
        out.push(reader.pop(&mut buf).unwrap());
    }
    assert_eq!(out, values);
    assert_eq!(buf.size(), 0);
}

#[test]
fn wraparound_keeps_the_order() {
    let (mut buf, mut reader, mut writer) = new::<usize>(5);
    assert_eq!(buf.capacity(), 7);
    assert_eq!(write_block(&mut writer, &mut buf, 0, 6), 6);
    assert_eq!(read_block(&mut reader, &mut buf, 4), vec![0, 1, 2, 3]);
    assert_eq!(write_block(&mut writer, &mut buf, 6, 6), 5);
    assert_eq!(writer.size(&buf), 0);
    assert_eq!(read_block(&mut reader, &mut buf, 8), vec![4, 5, 6, 7, 8, 9, 10]);
    assert_eq!(reader.size(&buf), 0);
}

#[test]
fn wraparound_with_single_pushes() {
    let (mut buf, mut reader, mut writer) = new::<usize>(5);
    for v in 0..6 {
        writer.push(&mut buf, v).unwrap();
    }
    for v in 0..4 {
        assert_eq!(reader.pop(&mut buf), Some(v));
    }
    for v in 6..11 {
        writer.push(&mut buf, v).unwrap();
    }
    assert_eq!(writer.push(&mut buf, 11), Err(11));
    for v in 4..11 {
        assert_eq!(reader.pop(&mut buf), Some(v));
    }
    assert_eq!(reader.pop(&mut buf), None);
}

#[test]
fn partial_bulk_fill_commits_what_was_written() {
    let (mut buf, mut reader, mut writer) = new::<u32>(8);
    writer.push(&mut buf, 1).unwrap();
    writer.push(&mut buf, 2).unwrap();
    assert_eq!(writer.size(&buf), 5);
    let mut session = writer.extender(&buf);
    let rest = session.extend(&mut buf, vec![10, 11, 12]);
    assert!(rest.is_empty());
    // Until the session is committed the reader sees nothing of it.
    assert_eq!(reader.size(&buf), 2);
    session.commit(&mut buf);
    assert_eq!(reader.size(&buf), 5);
    assert_eq!(writer.size(&buf), 2);
    assert_eq!(writer.push(&mut buf, 13), Ok(()));
    assert_eq!(writer.push(&mut buf, 14), Ok(()));
    assert_eq!(writer.push(&mut buf, 15), Err(15));
    let mut out = Vec::new();
    while let Some(v) = reader.pop(&mut buf) {
        out.push(v);
    }
    assert_eq!(out, vec![1, 2, 10, 11, 12, 13, 14]);
}

#[test]
fn bulk_fill_hands_back_what_does_not_fit() {
    let (mut buf, mut reader, mut writer) = new::<u32>(4);
    let mut session = writer.extender(&buf);
    let rest = session.extend(&mut buf, vec![1, 2, 3, 4, 5]);
    assert_eq!(rest, vec![4, 5]);
    let rest = session.extend(&mut buf, rest);
    assert_eq!(rest, vec![4, 5]);
    session.commit(&mut buf);
    assert_eq!(reader.pop(&mut buf), Some(1));
    assert_eq!(reader.pop(&mut buf), Some(2));
    assert_eq!(reader.pop(&mut buf), Some(3));
    assert_eq!(reader.pop(&mut buf), None);
}

#[test]
fn push_on_full_and_pop_on_empty_change_nothing() {
    let (mut buf, mut reader, mut writer) = new::<u32>(2);
    assert_eq!(buf.capacity(), 1);
    assert_eq!(reader.pop(&mut buf), None);
    assert_eq!(buf.size(), 0);
    assert_eq!(buf.get_range(0, 0).first.0, 0);
    writer.push(&mut buf, 5).unwrap();
    assert_eq!(writer.size(&buf), 0);
    assert_eq!(writer.push(&mut buf, 6), Err(6));
    assert_eq!(writer.size(&buf), 0);
    assert_eq!(reader.size(&buf), 1);
    assert_eq!(reader.pop(&mut buf), Some(5));
    assert_eq!(reader.pop(&mut buf), None);
    assert_eq!(reader.size(&buf), 0);
    assert_eq!(writer.size(&buf), 1);
}

#[test]
fn sessions_of_both_sides_interleave() {
    let (mut buf, mut reader, mut writer) = new::<u32>(8);
    for v in 0..3 {
        writer.push(&mut buf, v).unwrap();
    }
    let mut reading = reader.iter(&buf);
    let mut writing = writer.extender(&buf);
    assert_eq!(reading.next(&mut buf), Some(0));
    assert!(writing.extend(&mut buf, vec![3, 4]).is_empty());
    assert_eq!(reading.next(&mut buf), Some(1));
    // What the cursors show does not move before a commit.
    assert_eq!(buf.size(), 3);
    writing.commit(&mut buf);
    assert_eq!(buf.size(), 5);
    // The read session claimed three items when it opened.
    assert_eq!(reading.next(&mut buf), Some(2));
    assert_eq!(reading.next(&mut buf), None);
    reading.commit(&mut buf);
    assert_eq!(buf.size(), 2);
    assert_eq!(reader.pop(&mut buf), Some(3));
    assert_eq!(reader.pop(&mut buf), Some(4));
    assert_eq!(reader.pop(&mut buf), None);
}

#[test]
fn window_inside_the_array_is_one_stretch() {
    let buf = RingBuffer::<u8>::new(2, 8);
    let w = buf.get_range(2, 4);
    assert_eq!(w.first, (2, 6));
    assert_eq!(w.second, (0, 0));
    let w = buf.get_range(5, 3);
    assert_eq!(w.first, (5, 8));
    assert_eq!(w.second, (0, 0));
    let w = buf.get_range(3, 0);
    assert_eq!(w.first, (3, 3));
    assert_eq!(w.second, (0, 0));
}

#[test]
fn window_across_the_end_is_two_stretches() {
    let buf = RingBuffer::<u8>::new(2, 8);
    let w = buf.get_range(6, 5);
    assert_eq!(w.first, (6, 8));
    assert_eq!(w.second, (0, 3));
    let w = buf.get_range(14, 5);
    assert_eq!(w.first, (6, 8));
    assert_eq!(w.second, (0, 3));
    let w = buf.get_range(3, 8);
    assert_eq!(w.first, (3, 8));
    assert_eq!(w.second, (0, 3));
}

#[test]
fn release_moves_out_what_is_left() {
    let (mut buf, mut reader, mut writer) = new::<u32>(4);
    assert!(buf.release().is_empty());
    for v in 0..3 {
        writer.push(&mut buf, v).unwrap();
    }
    assert_eq!(reader.pop(&mut buf), Some(0));
    assert_eq!(reader.pop(&mut buf), Some(1));
    writer.push(&mut buf, 3).unwrap();
    writer.push(&mut buf, 4).unwrap();
    // The items now wrap round the end of the array.
    assert_eq!(buf.release(), vec![2, 3, 4]);
    assert_eq!(buf.size(), 0);
    assert_eq!(reader.pop(&mut buf), None);
    writer.push(&mut buf, 9).unwrap();
    assert_eq!(buf.release(), vec![9]);
}

#[test]
fn peer_is_connected_until_it_is_discarded() {
    let (buf, reader, writer) = new::<u32>(4);
    let mut trash = AtomicOption::new();
    assert_eq!(reader.check_connected(&buf), Ok(()));
    assert_eq!(writer.check_connected(&buf), Ok(()));
    let buf = writer.discard(buf, &mut trash).unwrap();
    assert_eq!(reader.check_connected(&buf), Err(Error::Disconnected));
    assert!(trash.take_box().is_none());
}

#[test]
fn last_discard_leaves_the_core_on_the_trash_stack() {
    let (mut buf, reader, mut writer) = new::<u32>(4);
    let mut trash = AtomicOption::new();
    writer.push(&mut buf, 7).unwrap();
    writer.push(&mut buf, 8).unwrap();
    let buf = reader.discard(buf, &mut trash).unwrap();
    assert!(writer.discard(buf, &mut trash).is_none());
    let mut core = trash.take_box().unwrap();
    assert!(trash.take_box().is_none());
    assert_eq!(core.release(), vec![7, 8]);
}

#[test]
fn disposed_cores_are_chained() {
    let mut trash = AtomicOption::new();
    let (mut first, r1, mut w1) = new::<u32>(4);
    w1.push(&mut first, 1).unwrap();
    let first = r1.discard(first, &mut trash).unwrap();
    assert!(w1.discard(first, &mut trash).is_none());
    let (mut second, r2, mut w2) = new::<u32>(4);
    w2.push(&mut second, 2).unwrap();
    let second = w2.discard(second, &mut trash).unwrap();
    assert!(r2.discard(second, &mut trash).is_none());
    let (third, r3, w3) = new::<u32>(4);
    let third = r3.discard(third, &mut trash).unwrap();
    assert!(w3.discard(third, &mut trash).is_none());
    // The stack hands out the whole chain at once, last disposed first.
    let mut head = trash.take_box();
    assert!(trash.take_box().is_none());
    let mut seen = Vec::new();
    while let Some(mut core) = head {
        seen.push(core.release());
        head = core.unlink();
    }
    assert_eq!(seen, vec![vec![], vec![2], vec![1]]);
}

#[test]
fn swap_box_hands_back_the_previous_value() {
    let mut slot = AtomicOption::new();
    assert!(slot.swap_box(Box::new(1u8)).is_none());
    assert_eq!(slot.swap_box(Box::new(2u8)), Some(Box::new(1u8)));
    assert_eq!(slot.take_box(), Some(Box::new(2u8)));
    assert!(slot.take_box().is_none());
}

#[test]
fn error_kinds_are_ordered_as_declared() {
    assert!(Error::Disconnected < Error::NoMore);
    assert!(Error::NoMore < Error::ItWontFit);
    assert_eq!(Error::NoMore, Error::NoMore);
}

#[test]
fn describe_shows_slots_and_occupancy() {
    let (mut buf, _reader, mut writer) = new::<u32>(6);
    assert_eq!(buf.describe(), "RingBuffer { capacity: 8, size: 0 }");
    writer.push(&mut buf, 1).unwrap();
    writer.push(&mut buf, 2).unwrap();
    assert_eq!(buf.describe(), "RingBuffer { capacity: 8, size: 2 }");
}

#[test]
fn sessions_know_when_they_are_done() {
    let (mut buf, mut reader, mut writer) = new::<u32>(4);
    let mut writing = writer.extender(&buf);
    assert!(!writing.is_done());
    assert!(writing.extend(&mut buf, vec![1, 2]).is_empty());
    assert!(!writing.is_done());
    assert!(writing.extend(&mut buf, vec![3]).is_empty());
    assert!(writing.is_done());
    writing.commit(&mut buf);
    let mut reading = reader.iter(&buf);
    assert!(!reading.is_done());
    assert_eq!(reading.next(&mut buf), Some(1));
    assert_eq!(reading.next(&mut buf), Some(2));
    assert!(!reading.is_done());
    assert_eq!(reading.next(&mut buf), Some(3));
    assert!(reading.is_done());
    assert_eq!(reading.next(&mut buf), None);
    reading.commit(&mut buf);
    // A session on an empty buffer is done from the start.
    assert!(reader.iter(&buf).is_done());
}

#[test]
fn abandoned_read_session_commits_what_it_took() {
    let (mut buf, mut reader, mut writer) = new::<u32>(8);
    for v in 0..5 {
        writer.push(&mut buf, v).unwrap();
    }
    let mut reading = reader.iter(&buf);
    assert_eq!(reading.next(&mut buf), Some(0));
    assert_eq!(reading.next(&mut buf), Some(1));
    // The writer still sees the slots as taken.
    assert_eq!(writer.size(&buf), 2);
    reading.commit(&mut buf);
    assert_eq!(writer.size(&buf), 4);
    assert_eq!(reader.size(&buf), 3);
    assert_eq!(reader.pop(&mut buf), Some(2));
}

#[test]
fn unlink_takes_a_core_off_the_chain() {
    let mut trash = AtomicOption::new();
    let (first, r1, w1) = new::<u32>(2);
    let first = r1.discard(first, &mut trash).unwrap();
    assert!(w1.discard(first, &mut trash).is_none());
    let (second, r2, w2) = new::<u32>(2);
    let second = r2.discard(second, &mut trash).unwrap();
    assert!(w2.discard(second, &mut trash).is_none());
    let mut head = trash.take_box().unwrap();
    let next = head.unlink();
    assert!(next.is_some());
    assert!(head.unlink().is_none());
    assert!(next.unwrap().unlink().is_none());
}

#[test]
fn reclaim_empties_the_trash_stack() {
    let mut trash = AtomicOption::new();
    assert!(reclaim::<u32>(&mut trash).is_empty());
    let (mut first, r1, mut w1) = new::<u32>(4);
    w1.push(&mut first, 1).unwrap();
    w1.push(&mut first, 2).unwrap();
    let first = w1.discard(first, &mut trash).unwrap();
    assert!(r1.discard(first, &mut trash).is_none());
    let (mut second, mut r2, mut w2) = new::<u32>(4);
    for v in 3..6 {
        w2.push(&mut second, v).unwrap();
    }
    assert_eq!(r2.pop(&mut second), Some(3));
    let second = r2.discard(second, &mut trash).unwrap();
    assert!(w2.discard(second, &mut trash).is_none());
    assert_eq!(reclaim(&mut trash), vec![vec![4, 5], vec![1, 2]]);
    assert!(trash.take_box().is_none());
    assert!(reclaim::<u32>(&mut trash).is_empty());
}
