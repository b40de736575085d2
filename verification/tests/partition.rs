use n_body::partition::Layout;
use n_body::timing::avg_duration;

#[test]
fn layout_fills_up_to_equal_shares() {
    assert_eq!(
        Layout::new(10, 4),
        Some(Layout { n_processes: 4, per_process: 3, filled: 12, padding: 2 })
    );
    assert_eq!(
        Layout::new(12, 4),
        Some(Layout { n_processes: 4, per_process: 3, filled: 12, padding: 0 })
    );
    assert_eq!(
        Layout::new(1000, 7),
        Some(Layout { n_processes: 7, per_process: 143, filled: 1001, padding: 1 })
    );
    assert_eq!(
        Layout::new(1, 8),
        Some(Layout { n_processes: 8, per_process: 1, filled: 8, padding: 7 })
    );
    assert_eq!(
        Layout::new(0, 3),
        Some(Layout { n_processes: 3, per_process: 0, filled: 0, padding: 0 })
    );
    assert_eq!(
        Layout::new(5, 1),
        Some(Layout { n_processes: 1, per_process: 5, filled: 5, padding: 0 })
    );
}

#[test]
fn layout_needs_a_process_and_room() {
    assert_eq!(Layout::new(10, 0), None);
    assert_eq!(Layout::new(usize::MAX, 2), None);
    assert_eq!(
        Layout::new(usize::MAX, 1),
        Some(Layout { n_processes: 1, per_process: usize::MAX, filled: usize::MAX, padding: 0 })
    );
}

#[test]
fn ranges_follow_the_ranks() {
    let layout = Layout::new(10, 4).unwrap();
    assert_eq!(layout.range_of(0), (0, 3));
    assert_eq!(layout.range_of(1), (3, 6));
    assert_eq!(layout.range_of(2), (6, 9));
    assert_eq!(layout.range_of(3), (9, 12));
}

#[test]
fn average_is_the_sum_over_the_count() {
    assert_eq!(avg_duration(&vec![10]), Some(10));
    assert_eq!(avg_duration(&vec![10, 20, 31]), Some(20));
    assert_eq!(avg_duration(&vec![0, 0, 1]), Some(0));
    assert_eq!(avg_duration(&vec![u64::MAX]), Some(u64::MAX));
}

#[test]
fn average_of_nothing_or_of_too_much_is_none() {
    assert_eq!(avg_duration(&vec![]), None);
    assert_eq!(avg_duration(&vec![u64::MAX, 1]), None);
}
