use std::cell::{Cell, RefCell};
use virtio_spec::config::{read_config_bounded, settle, ConfigArea};
use virtio_spec::error::Error;

#[test]
fn settle_keeps_or_drops() {
    assert_eq!(settle(3, "value", 3), Some("value"));
    assert_eq!(settle(3, "value", 4), None);
    assert_eq!(settle(0, 7u64, 0), Some(7));
    assert_eq!(settle(u32::MAX, 7u64, 0), None);
}

#[test]
fn bounded_read_of_a_quiet_device() {
    let calls = Cell::new(0u32);
    let r = read_config_bounded(
        || 5,
        || {
            calls.set(calls.get() + 1);
            [1u8, 2, 3]
        },
        4,
    );
    assert_eq!(r, Ok([1, 2, 3]));
    assert_eq!(calls.get(), 1);
}

#[test]
fn bounded_read_times_out() {
    let generation = Cell::new(0u32);
    let reads = Cell::new(0u32);
    // The generation moves on with every look at it.
    let r = read_config_bounded(
        || {
            generation.set(generation.get() + 1);
            generation.get()
        },
        || {
            reads.set(reads.get() + 1);
            0u8
        },
        3,
    );
    assert_eq!(r, Err(Error::ConfigReadTimeout));
    assert_eq!(reads.get(), 3);
    let r = read_config_bounded(|| 0, || 1u8, 0);
    assert_eq!(r, Err(Error::ConfigReadTimeout));
}

#[test]
fn bounded_read_retries_over_a_change() {
    // The device changes both fields, and its generation, in the middle of
    // the first read.
    let area = RefCell::new(ConfigArea::new(vec![0xaa, 0xaa]));
    let reads = Cell::new(0u32);
    let r = read_config_bounded(
        || area.borrow().generation(),
        || {
            reads.set(reads.get() + 1);
            let mut a = area.borrow_mut();
            a.begin_read();
            let low = a.read_byte(0).unwrap();
            if reads.get() == 1 {
                a.device_update(vec![0xbb, 0xbb]);
            }
            let high = a.read_byte(1).unwrap();
            (low, high)
        },
        5,
    );
    // Never the mix (0xaa, 0xbb).
    assert_eq!(r, Ok((0xbb, 0xbb)));
    assert_eq!(reads.get(), 2);
}

#[test]
fn area_read_without_a_change() {
    let mut a = ConfigArea::new(vec![1, 2, 3, 4]);
    assert_eq!(a.generation(), 0);
    a.begin_read();
    assert_eq!(a.read_byte(2), Some(3));
    assert_eq!(a.read_byte(0), Some(1));
    assert_eq!(a.read_byte(4), None);
    assert_eq!(a.end_read(), Some(vec![3, 1]));
    // The read has ended.
    assert_eq!(a.read_byte(0), None);
    assert_eq!(a.end_read(), None);
}

#[test]
fn area_read_over_a_change_does_not_settle() {
    let mut a = ConfigArea::new(vec![0x11, 0x11]);
    a.begin_read();
    assert_eq!(a.read_byte(0), Some(0x11));
    a.device_update(vec![0x22, 0x22]);
    assert_eq!(a.generation(), 1);
    assert_eq!(a.read_byte(1), Some(0x22));
    // The torn value is not handed out.
    assert_eq!(a.end_read(), None);
    a.begin_read();
    assert_eq!(a.read_byte(0), Some(0x22));
    assert_eq!(a.read_byte(1), Some(0x22));
    assert_eq!(a.end_read(), Some(vec![0x22, 0x22]));
}

#[test]
fn area_change_before_or_after_the_bytes() {
    let mut a = ConfigArea::new(vec![1]);
    a.begin_read();
    a.device_update(vec![2]);
    assert_eq!(a.read_byte(0), Some(2));
    assert_eq!(a.end_read(), None);
    a.begin_read();
    assert_eq!(a.read_byte(0), Some(2));
    a.device_update(vec![3]);
    assert_eq!(a.end_read(), None);
    // A change between two reads does no harm.
    a.device_update(vec![4]);
    a.begin_read();
    assert_eq!(a.read_byte(0), Some(4));
    assert_eq!(a.end_read(), Some(vec![4]));
    assert_eq!(a.generation(), 3);
}

#[test]
fn area_begin_again_drops_what_was_read() {
    let mut a = ConfigArea::new(vec![9, 8]);
    a.begin_read();
    assert_eq!(a.read_byte(0), Some(9));
    a.begin_read();
    assert_eq!(a.read_byte(1), Some(8));
    assert_eq!(a.end_read(), Some(vec![8]));
}

#[test]
fn bounded_read_of_a_quiet_device_needs_one_attempt() {
    let reads = Cell::new(0u32);
    let r = read_config_bounded(
        || 9,
        || {
            reads.set(reads.get() + 1);
            reads.get()
        },
        1,
    );
    assert_eq!(r, Ok(1));
    assert_eq!(reads.get(), 1);
}

#[test]
fn area_read_over_changes_counts_the_reads() {
    // No change: one read.
    let mut a = ConfigArea::new(vec![1, 2, 3]);
    assert_eq!(a.read_over(&[], 5), (Ok(vec![1, 2, 3]), 1));
    // One change during the first read: the second read gives the new
    // configuration, whole.
    let mut a = ConfigArea::new(vec![10, 10, 10, 10]);
    assert_eq!(a.read_over(&[vec![20, 20, 20, 20]], 5), (Ok(vec![20, 20, 20, 20]), 2));
    assert_eq!(a.generation(), 1);
    // A change during each of the first k reads: k + 1 reads.
    for k in 0..6usize {
        let mut a = ConfigArea::new(vec![0xff; 8]);
        let changes: Vec<Vec<u8>> = (0..k).map(|i| vec![i as u8; 8]).collect();
        let want = if k == 0 { vec![0xff; 8] } else { vec![(k - 1) as u8; 8] };
        assert_eq!(a.read_over(&changes, 10), (Ok(want), k as u32 + 1));
        assert_eq!(a.generation(), k as u32);
        assert_eq!(a.len(), 8);
    }
}

#[test]
fn area_read_over_changes_times_out() {
    let mut a = ConfigArea::new(vec![0]);
    let changes = vec![vec![1], vec![2], vec![3]];
    assert_eq!(a.read_over(&changes, 3), (Err(Error::ConfigReadTimeout), 3));
    assert_eq!(a.generation(), 3);
    let mut a = ConfigArea::new(vec![0]);
    assert_eq!(a.read_over(&changes, 2), (Err(Error::ConfigReadTimeout), 2));
    assert_eq!(a.generation(), 2);
    let mut a = ConfigArea::new(vec![0]);
    assert_eq!(a.read_over(&changes, 0), (Err(Error::ConfigReadTimeout), 0));
    let mut a = ConfigArea::new(vec![0]);
    assert_eq!(a.read_over(&changes, 4), (Ok(vec![3]), 4));
    // Changes of another length, and an empty configuration.
    let mut a = ConfigArea::new(vec![]);
    assert_eq!(a.read_over(&[vec![1, 2], vec![]], 3), (Ok(vec![]), 3));
}
