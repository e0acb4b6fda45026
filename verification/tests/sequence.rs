use raynet::sequence::{
    time_diff, SequenceDrop, SequenceFilter, SequenceWindow, MAX_FUTURE_TICKS, MAX_PAST_TICKS, TIME_MASK,
    WINDOW_BITS,
};

#[test]
fn window_accepts_reordering_and_rejects_duplicates() {
    let mut filter = SequenceFilter::default();
    for seq in [3, 1, 2, 5, 4] {
        assert_eq!(filter.check_and_insert(100, 100, 7, seq), Ok(()));
    }
    assert_eq!(
        filter.check_and_insert(100, 100, 7, 3),
        Err(SequenceDrop::Replay)
    );
    assert_eq!(
        filter.check_and_insert(100, 100, 7, u64::from(3 + WINDOW_BITS)),
        Ok(())
    );
    assert_eq!(
        filter.check_and_insert(100, 100, 7, 3),
        Err(SequenceDrop::Replay)
    );
}

#[test]
fn freshness_handles_boundaries_and_wraparound() {
    let mut filter = SequenceFilter::default();
    assert_eq!(filter.check_and_insert(0, TIME_MASK, 1, 0), Ok(()));
    assert_eq!(
        filter.check_and_insert(1000, 1000 - MAX_PAST_TICKS as u32, 2, 0),
        Ok(())
    );
    assert_eq!(
        filter.check_and_insert(1000, 1000 - MAX_PAST_TICKS as u32 - 1, 3, 0),
        Err(SequenceDrop::Freshness)
    );
    assert_eq!(
        filter.check_and_insert(1000, 1000 + MAX_FUTURE_TICKS as u32 + 1, 4, 0),
        Err(SequenceDrop::Freshness)
    );
}

#[test]
fn inserting_a_new_seq_id_cleans_expired_windows() {
    let mut filter = SequenceFilter::default();
    assert_eq!(filter.check_and_insert(0, 0, 1, 0), Ok(()));
    assert_eq!(filter.len(), 1);
    assert_eq!(
        filter.check_and_insert(MAX_PAST_TICKS as u32 + 1, MAX_PAST_TICKS as u32 + 1, 2, 0),
        Ok(())
    );
    filter.remove_expired(MAX_PAST_TICKS as u32 + 1, 0);
    assert_eq!(filter.len(), 1);
    assert!(filter.contains(2));
}

#[test]
fn senders_do_not_disturb_each_other() {
    let mut filter = SequenceFilter::default();
    assert_eq!(filter.check_and_insert(5, 5, 1, 9), Ok(()));
    assert!(filter.would_accept(5, 5, 2, 9));
    assert!(!filter.would_accept(5, 5, 1, 9));
    assert_eq!(filter.check_and_insert(5, 5, 2, 9), Ok(()));
    assert_eq!(filter.len(), 2);
}

#[test]
fn ticks_lie_on_a_circle() {
    assert_eq!(time_diff(0, TIME_MASK), 1);
    assert_eq!(time_diff(TIME_MASK, 0), -1);
    assert_eq!(time_diff(7, 7), 0);
}

#[test]
fn removed_senders_are_named() {
    let mut filter = SequenceFilter::default();
    assert_eq!(filter.check_and_insert(0, 0, 4, 0), Ok(()));
    assert_eq!(filter.check_and_insert(0, 0, 3, 0), Ok(()));
    let late = MAX_PAST_TICKS as u32 + 1;
    assert_eq!(filter.check_and_insert(late, late, 9, 0), Ok(()));
    let mut removed = filter.remove_expired(late, 0);
    removed.sort();
    assert_eq!(removed, vec![3, 4]);
    assert!(filter.next_expiry_delay_ms(late, 0).is_some());
}

#[test]
fn a_packet_is_taken_once_though_its_window_is_given_up() {
    let mut filter = SequenceFilter::default();
    assert_eq!(filter.check_and_insert(1000, 1000, 7, 3), Ok(()));
    assert_eq!(filter.check_and_insert(1100, 1100, 8, 1), Ok(()));
    assert_eq!(filter.check_and_insert(1100, 1000, 7, 2), Ok(()));
    assert_eq!(filter.remove_expired(1645, 1), Vec::<u64>::new());
    assert_eq!(
        filter.check_and_insert(1645, 1000, 7, 3),
        Err(SequenceDrop::Replay)
    );
    assert_eq!(filter.remove_expired(1646, 1), vec![7]);
    assert_eq!(
        filter.check_and_insert(1646, 1000, 7, 3),
        Err(SequenceDrop::Freshness)
    );
}

#[test]
fn expiry_is_announced_on_time() {
    let mut filter = SequenceFilter::default();
    assert_eq!(filter.check_and_insert(1000, 990, 7, 3), Ok(()));
    assert_eq!(filter.next_expiry_delay_ms(1000, 1), None);
    assert_eq!(filter.check_and_insert(1000, 1000, 8, 1), Ok(()));
    let delay = filter.next_expiry_delay_ms(1000, 1).unwrap();
    assert_eq!(delay, 636 * 1024);
    assert_eq!(filter.remove_expired(1635, 1), Vec::<u64>::new());
    assert_eq!(filter.remove_expired(1636, 1), vec![7]);
    assert_eq!(filter.next_expiry_delay_ms(1636, 1), None);
}

#[test]
fn a_window_takes_each_number_once() {
    let far = u64::from(WINDOW_BITS);
    let mut window = SequenceWindow::new(10, 5);
    assert_eq!(window.insert(10, 5), Err(SequenceDrop::Replay));
    assert_eq!(window.insert(8, 5), Ok(()));
    assert_eq!(window.insert(9 + far, 6), Ok(()));
    assert_eq!(window.insert(10, 7), Err(SequenceDrop::Replay));
    assert_eq!(window.insert(9, 7), Err(SequenceDrop::Replay));
    assert_eq!(window.insert(11, 7), Ok(()));
    assert_eq!(window.insert(11, 7), Err(SequenceDrop::Replay));
    assert_eq!(window.insert(9 + far, 7), Err(SequenceDrop::Replay));
    assert_eq!(window.insert(8 + far, 7), Ok(()));
}
