use virtio_spec::error::Error;
use virtio_spec::event::EventControl;
use virtio_spec::packed::PackedQueue;
use virtio_spec::virtq::{Buffer, UsedElem};

fn pbuf(n: u64) -> Buffer {
    Buffer { addr: 0x2000 * n, len: 0x10 + n as u32, write: n % 3 == 0 }
}

fn pchain(len: usize) -> Vec<Buffer> {
    (0..len as u64).map(pbuf).collect()
}

#[test]
fn packed_new_checks_the_size() {
    for size in [1u16, 2, 3, 5, 6, 7, 100, 32768, 32769, 65535] {
        let q = PackedQueue::new(size).unwrap();
        assert_eq!(q.size(), size);
        assert_eq!(q.num_free(), size);
        assert_eq!(q.next_avail(), 0);
        assert!(q.avail_wrap());
        assert_eq!(q.next_used(), 0);
        assert!(q.used_wrap());
    }
    assert!(PackedQueue::new(0).is_none());
}

#[test]
fn packed_round_trip_for_every_length() {
    for len in 1..=6usize {
        let mut q = PackedQueue::new(6).unwrap();
        let chain = pchain(len);
        let id = q.add_buffer(&chain).unwrap();
        assert_eq!(id, 0);
        assert_eq!(q.num_free() as usize, 6 - len);
        assert_eq!(q.poll_used(), None);
        let (taken, bufs) = q.pop_avail().unwrap();
        assert_eq!(taken, id);
        assert_eq!(bufs, chain);
        assert_eq!(q.pop_avail(), None);
        assert_eq!(q.poll_used(), None);
        assert_eq!(q.push_used(77), Ok(id));
        assert_eq!(q.poll_used(), Some(UsedElem { id: id as u32, len: 77 }));
        assert_eq!(q.poll_used(), None);
        assert_eq!(q.num_free(), 6);
    }
}

#[test]
fn packed_descriptors_lie_in_the_ring() {
    let mut q = PackedQueue::new(4).unwrap();
    let chain = pchain(3);
    let id = q.add_buffer(&chain).unwrap();
    for (i, b) in chain.iter().enumerate() {
        let d = q.desc(i as u16).unwrap();
        assert_eq!(d.addr, b.addr);
        assert_eq!(d.len, b.len);
        assert_eq!(d.id, id);
        assert_eq!(d.flags.write(), b.write);
        assert_eq!(d.flags.next(), i + 1 < chain.len());
        // Available in the first lap, whose wrap counter is set.
        assert!(d.flags.avail(true));
        assert!(!d.flags.used(true));
        assert!(!d.flags.avail(false));
    }
    // The slot after the chain was never written.
    let d = q.desc(3).unwrap();
    assert!(!d.flags.avail(true));
    assert!(!d.flags.used(true));
    assert_eq!(q.desc(4), None);
    q.pop_avail().unwrap();
    q.push_used(8).unwrap();
    let d = q.desc(0).unwrap();
    assert!(d.flags.used(true));
    assert!(!d.flags.avail(true));
    assert_eq!(d.id, id);
    assert_eq!(d.len, 8);
}

#[test]
fn packed_wrap_counters_toggle() {
    let size = 3u16;
    let mut q = PackedQueue::new(size).unwrap();
    for i in 0..size {
        assert_eq!(q.next_avail(), i);
        assert!(q.avail_wrap());
        assert_eq!(q.add_buffer(&[pbuf(i as u64)]), Ok(i));
    }
    // The ring is full, and the driver's cursor has come round.
    assert_eq!(q.next_avail(), 0);
    assert!(!q.avail_wrap());
    assert_eq!(q.num_free(), 0);
    // One more would fall on the slot of the first, which still waits.
    assert_eq!(q.add_buffer(&[pbuf(9)]), Err(Error::QueueFull));
    assert_eq!(q.desc(0).unwrap().addr, pbuf(0).addr);
    // Once the first is through, its slot takes the next chain, marked
    // for the second lap.
    assert_eq!(q.pop_avail().unwrap(), (0, vec![pbuf(0)]));
    assert_eq!(q.push_used(1), Ok(0));
    assert_eq!(q.poll_used(), Some(UsedElem { id: 0, len: 1 }));
    assert_eq!(q.next_used(), 1);
    assert!(q.used_wrap());
    assert_eq!(q.add_buffer(&[pbuf(9)]), Ok(0));
    assert_eq!(q.next_avail(), 1);
    let d = q.desc(0).unwrap();
    assert!(d.flags.avail(false));
    assert!(!d.flags.avail(true));
    // The others still wait in their slots, marked for the first lap.
    assert!(q.desc(1).unwrap().flags.avail(true));
    assert!(q.desc(2).unwrap().flags.avail(true));
    assert_eq!(q.pop_avail().unwrap(), (1, vec![pbuf(1)]));
    assert_eq!(q.pop_avail().unwrap(), (2, vec![pbuf(2)]));
    assert_eq!(q.pop_avail().unwrap(), (0, vec![pbuf(9)]));
    assert_eq!(q.pop_avail(), None);
    assert_eq!(q.push_used(0), Ok(1));
    assert_eq!(q.push_used(0), Ok(2));
    assert_eq!(q.push_used(0), Ok(0));
    assert_eq!(q.poll_used().unwrap().id, 1);
    assert_eq!(q.poll_used().unwrap().id, 2);
    // The driver's cursor for used descriptors comes round too.
    assert_eq!(q.next_used(), 0);
    assert!(!q.used_wrap());
    assert_eq!(q.poll_used().unwrap().id, 0);
    assert_eq!(q.poll_used(), None);
    assert_eq!(q.num_free(), 3);
}

#[test]
fn packed_chain_across_the_end_of_the_ring() {
    let mut q = PackedQueue::new(5).unwrap();
    assert_eq!(q.add_buffer(&pchain(3)), Ok(0));
    assert_eq!(q.pop_avail().unwrap(), (0, pchain(3)));
    assert_eq!(q.push_used(1), Ok(0));
    assert_eq!(q.poll_used(), Some(UsedElem { id: 0, len: 1 }));
    assert_eq!(q.next_used(), 3);
    // Slots 3, 4, 0 and 1.
    let chain = pchain(4);
    assert_eq!(q.add_buffer(&chain), Ok(3));
    assert_eq!(q.next_avail(), 2);
    assert!(!q.avail_wrap());
    assert!(q.desc(3).unwrap().flags.avail(true));
    assert!(q.desc(4).unwrap().flags.avail(true));
    assert!(q.desc(0).unwrap().flags.avail(false));
    assert!(q.desc(1).unwrap().flags.avail(false));
    assert_eq!(q.num_free(), 1);
    assert_eq!(q.pop_avail().unwrap(), (3, chain));
    assert_eq!(q.push_used(2), Ok(3));
    // The completion lies in the first slot of the chain.
    let d = q.desc(3).unwrap();
    assert!(d.flags.used(true));
    assert_eq!(d.id, 3);
    assert_eq!(q.poll_used(), Some(UsedElem { id: 3, len: 2 }));
    assert_eq!(q.next_used(), 2);
    assert!(!q.used_wrap());
    assert_eq!(q.num_free(), 5);
}

#[test]
fn packed_many_laps() {
    let mut q = PackedQueue::new(3).unwrap();
    let mut pos = 0u16;
    let mut wrap = true;
    for i in 0..100u32 {
        let len = (i % 3 + 1) as usize;
        assert_eq!(q.next_avail(), pos);
        assert_eq!(q.avail_wrap(), wrap);
        let id = q.add_buffer(&pchain(len)).unwrap();
        assert_eq!(id, pos);
        assert_eq!(q.pop_avail().unwrap(), (id, pchain(len)));
        assert_eq!(q.push_used(i), Ok(id));
        assert_eq!(q.poll_used(), Some(UsedElem { id: id as u32, len: i }));
        assert_eq!(q.poll_used(), None);
        pos += len as u16;
        if pos >= 3 {
            pos -= 3;
            wrap = !wrap;
        }
    }
}

#[test]
fn packed_queue_full_then_room() {
    let mut q = PackedQueue::new(4).unwrap();
    assert_eq!(q.add_buffer(&pchain(3)), Ok(0));
    assert_eq!(q.add_buffer(&pchain(2)), Err(Error::QueueFull));
    assert_eq!(q.num_free(), 1);
    assert_eq!(q.next_avail(), 3);
    assert_eq!(q.pop_avail().unwrap(), (0, pchain(3)));
    assert_eq!(q.pop_avail(), None);
    // Used, but not yet polled: the slots are still taken.
    q.push_used(0).unwrap();
    assert_eq!(q.add_buffer(&pchain(2)), Err(Error::QueueFull));
    q.poll_used().unwrap();
    assert_eq!(q.num_free(), 4);
    assert_eq!(q.add_buffer(&pchain(3)), Ok(3));
    assert_eq!(q.pop_avail().unwrap(), (3, pchain(3)));
}

#[test]
fn packed_malformed_chains() {
    let mut q = PackedQueue::new(4).unwrap();
    assert_eq!(q.add_buffer(&[]), Err(Error::MalformedChain));
    assert_eq!(q.add_buffer(&pchain(5)), Err(Error::MalformedChain));
    assert_eq!(q.num_free(), 4);
    assert_eq!(q.next_avail(), 0);
    assert_eq!(q.add_buffer(&pchain(4)), Ok(0));
    // Too long comes before full.
    assert_eq!(q.add_buffer(&pchain(5)), Err(Error::MalformedChain));
    assert_eq!(q.add_buffer(&pchain(1)), Err(Error::QueueFull));
}

#[test]
fn packed_device_cannot_use_what_it_has_not_taken() {
    let mut q = PackedQueue::new(4).unwrap();
    assert_eq!(q.push_used(1), Err(Error::MalformedChain));
    q.add_buffer(&pchain(2)).unwrap();
    assert_eq!(q.push_used(1), Err(Error::MalformedChain));
    assert_eq!(q.poll_used(), None);
    q.pop_avail().unwrap();
    assert_eq!(q.push_used(1), Ok(0));
    assert_eq!(q.push_used(1), Err(Error::MalformedChain));
}

#[test]
fn packed_several_in_flight() {
    let mut q = PackedQueue::new(8).unwrap();
    assert_eq!(q.add_buffer(&pchain(2)), Ok(0));
    assert_eq!(q.add_buffer(&pchain(3)), Ok(2));
    assert_eq!(q.add_buffer(&pchain(1)), Ok(5));
    assert_eq!(q.pop_avail().unwrap(), (0, pchain(2)));
    assert_eq!(q.pop_avail().unwrap(), (2, pchain(3)));
    assert_eq!(q.push_used(10), Ok(0));
    assert_eq!(q.pop_avail().unwrap(), (5, pchain(1)));
    assert_eq!(q.poll_used(), Some(UsedElem { id: 0, len: 10 }));
    assert_eq!(q.poll_used(), None);
    assert_eq!(q.push_used(20), Ok(2));
    assert_eq!(q.push_used(30), Ok(5));
    assert_eq!(q.poll_used(), Some(UsedElem { id: 2, len: 20 }));
    assert_eq!(q.poll_used(), Some(UsedElem { id: 5, len: 30 }));
    assert_eq!(q.poll_used(), None);
    assert_eq!(q.num_free(), 8);
    assert_eq!(q.next_used(), 6);
}

#[test]
fn packed_notifications() {
    let mut q = PackedQueue::new(4).unwrap();
    let mut device = EventControl::new(true);
    let pos = q.next_avail();
    let wrap = q.avail_wrap();
    q.add_buffer(&pchain(2)).unwrap();
    assert!(q.needs_notify(&device, pos, wrap, 2));
    device.disable();
    assert!(!q.needs_notify(&device, pos, wrap, 2));
    device.set_desc(1, true).unwrap();
    assert!(q.needs_notify(&device, pos, wrap, 2));
    device.set_desc(2, true).unwrap();
    assert!(!q.needs_notify(&device, pos, wrap, 2));
    // Slot 1 of the next lap is not passed either.
    device.set_desc(1, false).unwrap();
    assert!(!q.needs_notify(&device, pos, wrap, 2));
    let driver = EventControl::new(false);
    assert!(q.needs_interrupt(&driver, 0, true, 1));
}

#[test]
fn packed_memory_as_bytes() {
    let mut q = PackedQueue::new(2).unwrap();
    q.add_buffer(&[Buffer { addr: 0x0a, len: 0x0b, write: true }]).unwrap();
    // Address, length, buffer ID, and the flags: write and available.
    assert_eq!(
        q.ring_bytes(),
        vec![
            0x0a, 0, 0, 0, 0, 0, 0, 0, 0x0b, 0, 0, 0, 0, 0, 0x82, 0, //
            0, 0, 0, 0, 0, 0, 0, 0, 0, 0, 0, 0, 0, 0, 0, 0,
        ]
    );
    q.pop_avail().unwrap();
    q.push_used(0x0c).unwrap();
    // The used descriptor: length written, buffer ID, both marks set.
    assert_eq!(q.ring_bytes()[..16], [0, 0, 0, 0, 0, 0, 0, 0, 0x0c, 0, 0, 0, 0, 0, 0x80, 0x80]);
}

#[test]
fn packed_reset() {
    let mut q = PackedQueue::new(3).unwrap();
    q.add_buffer(&pchain(2)).unwrap();
    q.add_buffer(&pchain(1)).unwrap();
    q.pop_avail().unwrap();
    q.push_used(1).unwrap();
    q.reset();
    assert_eq!(q.size(), 3);
    assert_eq!(q.num_free(), 3);
    assert_eq!(q.next_avail(), 0);
    assert!(q.avail_wrap());
    assert_eq!(q.next_used(), 0);
    assert!(q.used_wrap());
    assert_eq!(q.pop_avail(), None);
    assert_eq!(q.poll_used(), None);
    assert_eq!(q.push_used(0), Err(Error::MalformedChain));
    assert_eq!(q.add_buffer(&pchain(3)), Ok(0));
    assert_eq!(q.pop_avail().unwrap(), (0, pchain(3)));
}

#[test]
fn packed_largest_ring() {
    let mut q = PackedQueue::new(65535).unwrap();
    let long = vec![pbuf(1); 65535];
    assert_eq!(q.add_buffer(&long), Ok(0));
    assert_eq!(q.num_free(), 0);
    assert_eq!(q.next_avail(), 0);
    assert!(!q.avail_wrap());
    assert_eq!(q.add_buffer(&[pbuf(0)]), Err(Error::QueueFull));
    assert_eq!(q.pop_avail().unwrap(), (0, long));
    assert_eq!(q.push_used(1), Ok(0));
    assert_eq!(q.poll_used(), Some(UsedElem { id: 0, len: 1 }));
    assert_eq!(q.next_used(), 0);
    assert!(!q.used_wrap());
    assert_eq!(q.num_free(), 65535);
    assert_eq!(q.add_buffer(&pchain(2)), Ok(0));
    assert_eq!(q.next_avail(), 2);
}

#[test]
fn packed_refusals_write_nothing() {
    let mut q = PackedQueue::new(2).unwrap();
    q.add_buffer(&pchain(2)).unwrap();
    let ring = q.ring_bytes();
    assert_eq!(q.add_buffer(&pchain(1)), Err(Error::QueueFull));
    assert_eq!(q.add_buffer(&pchain(3)), Err(Error::MalformedChain));
    assert_eq!(q.add_buffer(&[]), Err(Error::MalformedChain));
    assert_eq!(q.ring_bytes(), ring);
    assert_eq!(q.next_avail(), 0);
    assert!(!q.avail_wrap());
}
