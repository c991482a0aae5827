use sequence_buffer::SequenceBuffer;

#[test]
fn fresh_buffer_is_empty() {
    let buf: SequenceBuffer<u32> = SequenceBuffer::with_capacity(8);
    assert_eq!(buf.sequence_num(), 0);
    for s in 0..200u16 {
        assert!(!buf.contains(s));
        assert!(buf.get(s).is_none());
    }
}

#[test]
fn insert_then_get_returns_value() {
    let mut buf: SequenceBuffer<u32> = SequenceBuffer::with_capacity(4);
    assert!(buf.insert(0, 10));
    assert_eq!(buf.get(0), Some(&10));
    assert!(buf.contains(0));
    assert_eq!(buf.sequence_num(), 1);
}

#[test]
fn insert_within_window_is_accepted() {
    let mut buf: SequenceBuffer<u32> = SequenceBuffer::with_capacity(4);
    assert!(buf.insert(5, 50));
    // 2 is not older than head - capacity == 6 - 4 == 2, so it is accepted.
    assert!(buf.insert(2, 20));
    assert_eq!(buf.get(2), Some(&20));
    assert_eq!(buf.get(5), Some(&50));
    // head does not move backwards for an in-window insert
    assert_eq!(buf.sequence_num(), 6);
}

#[test]
fn stale_insert_is_rejected_without_mutation() {
    let mut buf: SequenceBuffer<u32> = SequenceBuffer::with_capacity(4);
    assert!(buf.insert(10, 1));
    let head_before = buf.sequence_num();
    // head is 11, the window floor is 7: 6 is strictly older.
    assert!(!buf.insert(6, 2));
    assert_eq!(buf.sequence_num(), head_before);
    assert!(!buf.contains(6));
    assert_eq!(buf.get(10), Some(&1));
}

#[test]
fn eviction_via_window_slide() {
    let mut buf: SequenceBuffer<u32> = SequenceBuffer::with_capacity(4);
    for s in 0..4u16 {
        assert!(buf.insert(s, s as u32 * 10));
    }
    for s in 0..4u16 {
        assert!(buf.contains(s));
    }
    assert!(buf.insert(4, 40));
    assert!(!buf.contains(0));
    assert!(buf.contains(4));
    assert_eq!(buf.oldest(), 1);
    for s in 1..5u16 {
        assert!(buf.contains(s));
    }
}

#[test]
fn wraparound_behaves_like_shifted_inserts() {
    let mut wrapped: SequenceBuffer<u32> = SequenceBuffer::with_capacity(4);
    let mut plain: SequenceBuffer<u32> = SequenceBuffer::with_capacity(4);
    let wrapped_seqs = [65534u16, 65535, 0, 1];
    let plain_seqs = [2u16, 3, 4, 5];
    for k in 0..4 {
        assert!(wrapped.insert(wrapped_seqs[k], k as u32));
        assert!(plain.insert(plain_seqs[k], k as u32));
    }
    for k in 0..4 {
        assert_eq!(
            wrapped.contains(wrapped_seqs[k]),
            plain.contains(plain_seqs[k]),
            "entry {} diverged",
            k
        );
        assert!(wrapped.contains(wrapped_seqs[k]));
        assert_eq!(wrapped.get(wrapped_seqs[k]), Some(&(k as u32)));
    }
    assert_eq!(wrapped.sequence_num(), 2);
    assert_eq!(plain.sequence_num(), 6);
    assert_eq!(wrapped.oldest(), 65534);
    assert_eq!(plain.oldest(), 2);
    // the same stale insert is rejected on both sides
    assert!(!wrapped.insert(65533, 9));
    assert!(!plain.insert(1, 9));
}

#[test]
fn far_jump_wipes_all_slots() {
    let mut buf: SequenceBuffer<u32> = SequenceBuffer::with_capacity(4);
    for s in 0..4u16 {
        assert!(buf.insert(s, s as u32));
    }
    // jumping far past the window wipes every slot outright
    assert!(buf.insert(100, 7));
    for s in 0..4u16 {
        assert!(!buf.contains(s));
    }
    assert!(buf.contains(100));
    assert_eq!(buf.sequence_num(), 101);
}

#[test]
fn remove_returns_the_stored_value_once() {
    let mut buf: SequenceBuffer<u32> = SequenceBuffer::with_capacity(4);
    assert!(buf.insert(3, 33));
    assert_eq!(buf.remove(3), Some(33));
    assert!(!buf.contains(3));
    assert_eq!(buf.remove(3), None);
    assert!(buf.get(3).is_none());
}

#[test]
fn remove_of_absent_entry_changes_nothing() {
    let mut buf: SequenceBuffer<u32> = SequenceBuffer::with_capacity(4);
    assert!(buf.insert(1, 11));
    assert_eq!(buf.remove(2), None);
    assert_eq!(buf.get(1), Some(&11));
    assert_eq!(buf.sequence_num(), 2);
}

#[test]
fn clear_resets_to_fresh_state() {
    let mut buf: SequenceBuffer<u32> = SequenceBuffer::with_capacity(4);
    for s in 0..4u16 {
        assert!(buf.insert(s, s as u32));
    }
    buf.clear();
    assert_eq!(buf.sequence_num(), 0);
    for s in 0..300u16 {
        assert!(!buf.contains(s));
    }
    // behaves like a freshly constructed buffer of the same capacity
    let fresh: SequenceBuffer<u32> = SequenceBuffer::with_capacity(4);
    assert_eq!(buf.sequence_num(), fresh.sequence_num());
    assert_eq!(buf.oldest(), fresh.oldest());
    assert!(buf.insert(0, 5));
    assert_eq!(buf.get(0), Some(&5));
}

#[test]
fn get_mut_edits_the_stored_value() {
    let mut buf: SequenceBuffer<u32> = SequenceBuffer::with_capacity(4);
    assert!(buf.insert(2, 20));
    match buf.get_mut(2) {
        Some(v) => *v = 99,
        None => panic!("entry 2 should be present"),
    }
    assert_eq!(buf.get(2), Some(&99));
    assert!(buf.get_mut(3).is_none());
}

#[test]
fn remove_until_drops_the_leading_entries() {
    let mut buf: SequenceBuffer<u32> = SequenceBuffer::with_capacity(4);
    for s in 0..4u16 {
        assert!(buf.insert(s, s as u32));
    }
    // oldest() == 0: remove everything before 2
    buf.remove_until(2);
    assert!(!buf.contains(0));
    assert!(!buf.contains(1));
    assert!(buf.contains(2));
    assert!(buf.contains(3));
    assert_eq!(buf.sequence_num(), 4);
}

#[test]
fn remove_until_handles_a_wrapped_bound() {
    let mut buf: SequenceBuffer<u32> = SequenceBuffer::with_capacity(4);
    for &s in &[65534u16, 65535, 0, 1] {
        assert!(buf.insert(s, s as u32));
    }
    // oldest() == 65534 and the bound has wrapped past 65535
    buf.remove_until(0);
    assert!(!buf.contains(65534));
    assert!(!buf.contains(65535));
    assert!(buf.contains(0));
    assert!(buf.contains(1));
}

#[test]
fn iteration_yields_live_entries_in_order() {
    let mut buf: SequenceBuffer<u32> = SequenceBuffer::with_capacity(8);
    for s in 0..6u16 {
        assert!(buf.insert(s, s as u32 * 10));
    }
    assert_eq!(buf.remove(2), Some(20));
    assert_eq!(buf.remove(4), Some(40));
    let mut seen: Vec<u32> = Vec::new();
    let mut it = buf.iter();
    while let Some(v) = it.next() {
        seen.push(*v);
    }
    assert_eq!(seen, vec![0, 10, 30, 50]);
}

#[test]
fn iteration_wraps_with_the_window() {
    let mut buf: SequenceBuffer<u32> = SequenceBuffer::with_capacity(4);
    for &s in &[65534u16, 65535, 0, 1] {
        assert!(buf.insert(s, s as u32));
    }
    let mut seen: Vec<u32> = Vec::new();
    let mut it = buf.iter();
    while let Some(v) = it.next() {
        seen.push(*v);
    }
    assert_eq!(seen, vec![65534, 65535, 0, 1]);
}

#[test]
fn iteration_skips_a_stale_entry_outside_the_window() {
    let mut buf: SequenceBuffer<u32> = SequenceBuffer::with_capacity(4);
    for s in 0..4u16 {
        assert!(buf.insert(s, s as u32 * 10));
    }
    // jumping to 5 slides the window to [2, 6) without touching slot 0,
    // so the entry for 0 stays behind as a stale but still matching tag
    assert!(buf.insert(5, 50));
    assert!(buf.contains(0));
    assert_eq!(buf.oldest(), 2);
    // the traversal walks the window only and never reaches it
    let mut seen: Vec<u32> = Vec::new();
    let mut it = buf.iter();
    while let Some(v) = it.next() {
        seen.push(*v);
    }
    assert_eq!(seen, vec![20, 30, 50]);
}

#[test]
fn iteration_of_empty_buffer_yields_nothing() {
    let buf: SequenceBuffer<u32> = SequenceBuffer::with_capacity(4);
    let mut it = buf.iter();
    assert!(it.next().is_none());
    assert!(it.next().is_none());
}

#[test]
fn independent_iterations_restart() {
    let mut buf: SequenceBuffer<u32> = SequenceBuffer::with_capacity(4);
    assert!(buf.insert(0, 1));
    assert!(buf.insert(1, 2));
    let mut first = buf.iter();
    assert_eq!(first.next(), Some(&1));
    let mut second = buf.iter();
    assert_eq!(second.next(), Some(&1));
    assert_eq!(first.next(), Some(&2));
    assert_eq!(second.next(), Some(&2));
    assert!(first.next().is_none());
    assert!(second.next().is_none());
}

#[test]
fn payloads_move_in_and_out() {
    let mut buf: SequenceBuffer<String> = SequenceBuffer::with_capacity(2);
    assert!(buf.insert(0, String::from("alpha")));
    assert!(buf.insert(1, String::from("beta")));
    assert_eq!(buf.get(0).map(String::as_str), Some("alpha"));
    assert_eq!(buf.remove(1), Some(String::from("beta")));
    assert_eq!(buf.remove(1), None);
}
