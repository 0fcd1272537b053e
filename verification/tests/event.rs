use virtio_spec::error::Error;
use virtio_spec::event::{need_event, EventControl};
use virtio_spec::pvirtq::EventSuppress;
use virtio_spec::RingEventFlags;

#[test]
fn need_event_values() {
    // Moving from 0 to 1 passes index 0 only.
    assert!(need_event(0, 1, 0));
    assert!(!need_event(1, 1, 0));
    assert!(!need_event(65535, 1, 0));
    // Moving from 3 to 7 passes 3, 4, 5 and 6.
    assert!(!need_event(2, 7, 3));
    assert!(need_event(3, 7, 3));
    assert!(need_event(6, 7, 3));
    assert!(!need_event(7, 7, 3));
    // No move passes nothing.
    assert!(!need_event(5, 5, 5));
    // Across the end of the 16 bits.
    assert!(need_event(65535, 1, 65534));
    assert!(need_event(0, 1, 65534));
    assert!(need_event(65534, 1, 65534));
    assert!(!need_event(1, 1, 65534));
    assert!(!need_event(65533, 1, 65534));
}

#[test]
fn control_modes() {
    let mut c = EventControl::new(true);
    assert_eq!(c.mode(), RingEventFlags::Enable);
    assert_eq!(c.split_flags(), 0);
    c.disable();
    assert_eq!(c.mode(), RingEventFlags::Disable);
    assert_eq!(c.split_flags(), 1);
    assert_eq!(c.set_desc(9, true), Ok(()));
    assert_eq!(c.mode(), RingEventFlags::Desc);
    assert_eq!(c.split_flags(), 0);
    assert_eq!(
        c.to_suppress(),
        EventSuppress { desc_event_off: 9, desc_event_wrap: true, desc_event_flags: RingEventFlags::Desc }
    );
    c.enable();
    assert_eq!(c.mode(), RingEventFlags::Enable);
}

#[test]
fn control_desc_needs_negotiation() {
    let mut c = EventControl::new(false);
    c.disable();
    assert_eq!(c.set_desc(9, true), Err(Error::UnsupportedFeature));
    // Nothing has changed.
    assert_eq!(c.mode(), RingEventFlags::Disable);
    assert_eq!(
        c.to_suppress(),
        EventSuppress { desc_event_off: 0, desc_event_wrap: false, desc_event_flags: RingEventFlags::Disable }
    );
}

#[test]
fn control_apply() {
    let desc = EventSuppress { desc_event_off: 3, desc_event_wrap: true, desc_event_flags: RingEventFlags::Desc };
    let off = EventSuppress { desc_event_off: 0, desc_event_wrap: false, desc_event_flags: RingEventFlags::Disable };
    let bad = EventSuppress { desc_event_off: 0, desc_event_wrap: false, desc_event_flags: RingEventFlags::Reserved };
    let mut c = EventControl::new(false);
    assert_eq!(c.apply(desc), Err(Error::UnsupportedFeature));
    assert_eq!(c.mode(), RingEventFlags::Enable);
    assert_eq!(c.apply(off), Ok(()));
    assert_eq!(c.mode(), RingEventFlags::Disable);
    assert_eq!(c.apply(bad), Err(Error::UnsupportedFeature));
    assert_eq!(c.mode(), RingEventFlags::Disable);
    let mut c = EventControl::new(true);
    assert_eq!(c.apply(desc), Ok(()));
    assert_eq!(c.to_suppress(), desc);
    assert_eq!(c.apply(bad), Err(Error::UnsupportedFeature));
    assert_eq!(c.to_suppress(), desc);
}

#[test]
fn control_split_decisions() {
    let mut c = EventControl::new(true);
    assert!(c.signal_split(0, 0));
    assert!(c.signal_split(10, 20));
    c.disable();
    assert!(!c.signal_split(10, 20));
    c.set_desc(15, false).unwrap();
    assert!(c.signal_split(10, 20));
    assert!(c.signal_split(15, 16));
    assert!(!c.signal_split(16, 20));
    assert!(!c.signal_split(10, 15));
}

#[test]
fn control_packed_decisions() {
    let mut c = EventControl::new(true);
    assert!(c.signal_packed(0, true, 1, 4));
    c.disable();
    assert!(!c.signal_packed(0, true, 1, 4));
    // Slot 3 of the lap with the wrap counter set.
    c.set_desc(3, true).unwrap();
    assert!(!c.signal_packed(0, true, 3, 4));
    assert!(c.signal_packed(0, true, 4, 4));
    assert!(c.signal_packed(3, true, 1, 4));
    assert!(c.signal_packed(2, true, 2, 4));
    assert!(!c.signal_packed(2, true, 1, 4));
    // From the lap before, slot 3 of this lap is not in reach of a batch
    // that starts after it.
    assert!(!c.signal_packed(0, false, 4, 4));
    // Slot 1 of the next lap, from slot 2 of this one: three slots on.
    c.set_desc(1, false).unwrap();
    assert!(!c.signal_packed(2, true, 3, 4));
    assert!(c.signal_packed(2, true, 4, 4));
    assert!(!c.signal_packed(1, true, 4, 4));
    // A position outside the ring is never passed.
    c.set_desc(7, true).unwrap();
    assert!(!c.signal_packed(0, true, 4, 4));
    assert!(!c.signal_packed(9, true, 4, 4));
}
