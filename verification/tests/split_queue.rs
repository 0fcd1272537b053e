use virtio_spec::error::Error;
use virtio_spec::event::EventControl;
use virtio_spec::split::SplitQueue;
use virtio_spec::virtq::{build_indirect_table, read_indirect, Buffer, Desc, DescF, UsedElem};

fn buf(n: u64) -> Buffer {
    Buffer { addr: 0x1000 * n, len: 0x100 + n as u32, write: n % 2 == 1 }
}

fn chain_of(len: usize) -> Vec<Buffer> {
    (0..len as u64).map(buf).collect()
}

#[test]
fn split_new_checks_the_size() {
    for size in [1u16, 2, 4, 8, 256, 1024, 32768] {
        let q = SplitQueue::new(size, false).unwrap();
        assert_eq!(q.size(), size);
        assert_eq!(q.num_free(), size);
        assert_eq!(q.avail_idx(), 0);
        assert_eq!(q.used_idx(), 0);
        assert_eq!(q.last_used_idx(), 0);
    }
    for size in [0u16, 3, 5, 6, 7, 12, 1000, 32769, 65535] {
        assert!(SplitQueue::new(size, false).is_none());
    }
}

#[test]
fn split_round_trip_for_every_length() {
    for len in 1..=8usize {
        let mut q = SplitQueue::new(8, false).unwrap();
        let chain = chain_of(len);
        let head = q.add_buffer(&chain).unwrap();
        assert_eq!(q.num_free() as usize, 8 - len);
        assert_eq!(q.avail_idx(), 1);
        // Nothing is completed yet.
        assert_eq!(q.poll_used(), None);
        let (taken, bufs) = q.pop_avail().unwrap();
        assert_eq!(taken, head);
        assert_eq!(bufs, chain);
        assert_eq!(q.pop_avail(), None);
        assert_eq!(q.poll_used(), None);
        assert_eq!(q.push_used(head, 42), Ok(()));
        assert_eq!(q.used_idx(), 1);
        assert_eq!(q.poll_used(), Some(UsedElem { id: head as u32, len: 42 }));
        // Exactly one completion.
        assert_eq!(q.poll_used(), None);
        assert_eq!(q.last_used_idx(), 1);
        assert_eq!(q.free_chain(head), Ok(len as u16));
        assert_eq!(q.num_free(), 8);
    }
}

#[test]
fn split_chain_lies_in_the_tables() {
    let mut q = SplitQueue::new(4, false).unwrap();
    let chain = chain_of(3);
    let head = q.add_buffer(&chain).unwrap();
    // The available ring names the head in its first slot.
    assert_eq!(q.avail(0), Some(head));
    // Following the descriptors from the head finds the chain.
    let mut at = head;
    for (i, b) in chain.iter().enumerate() {
        let d = q.desc(at).unwrap();
        assert_eq!(d.addr, b.addr);
        assert_eq!(d.len, b.len);
        assert_eq!(d.flags.write(), b.write);
        assert_eq!(d.flags.next(), i + 1 < chain.len());
        assert!(!d.flags.indirect());
        at = d.next;
    }
    assert_eq!(q.desc(4), None);
    assert_eq!(q.avail(4), None);
    assert_eq!(q.used(4), None);
    q.pop_avail().unwrap();
    q.push_used(head, 9).unwrap();
    assert_eq!(q.used(0), Some(UsedElem { id: head as u32, len: 9 }));
}

#[test]
fn split_in_order_indices() {
    let mut q = SplitQueue::new(8, false).unwrap();
    let n = 5u16;
    let mut heads = Vec::new();
    for i in 0..n {
        heads.push(q.add_buffer(&[buf(i as u64)]).unwrap());
    }
    assert_eq!(q.avail_idx(), n);
    for (i, h) in heads.iter().enumerate() {
        let (head, bufs) = q.pop_avail().unwrap();
        assert_eq!(head, *h);
        assert_eq!(bufs, vec![buf(i as u64)]);
        q.push_used(head, i as u32).unwrap();
    }
    for (i, h) in heads.iter().enumerate() {
        assert_eq!(q.poll_used(), Some(UsedElem { id: *h as u32, len: i as u32 }));
    }
    assert_eq!(q.poll_used(), None);
    assert_eq!(q.used_idx(), n);
    assert_eq!(q.last_used_idx(), n);
    assert_eq!(q.used_idx() % 8, n % 8);
}

#[test]
fn split_wraps_round_the_ring() {
    let size = 4u16;
    let mut q = SplitQueue::new(size, false).unwrap();
    // As many chains as the ring has slots fill it.
    let mut heads = Vec::new();
    for i in 0..size {
        heads.push(q.add_buffer(&[buf(i as u64)]).unwrap());
    }
    let mut sorted = heads.clone();
    sorted.sort();
    sorted.dedup();
    assert_eq!(sorted.len(), size as usize);
    // One more finds no slot while the first still waits.
    assert_eq!(q.add_buffer(&[buf(9)]), Err(Error::QueueFull));
    assert_eq!(q.avail_idx(), size);
    // Once the first is through, its slot takes the next chain.
    let (first, _) = q.pop_avail().unwrap();
    assert_eq!(first, heads[0]);
    q.push_used(first, 1).unwrap();
    assert_eq!(q.poll_used(), Some(UsedElem { id: first as u32, len: 1 }));
    q.free_chain(first).unwrap();
    let again = q.add_buffer(&[buf(9)]).unwrap();
    assert_eq!(q.avail_idx(), size + 1);
    // It falls on slot 0 of the available ring, and the others still wait
    // in theirs.
    assert_eq!(q.avail(0), Some(again));
    for i in 1..size {
        assert_eq!(q.avail(i), Some(heads[i as usize]));
    }
    for i in 1..size {
        let (h, b) = q.pop_avail().unwrap();
        assert_eq!(h, heads[i as usize]);
        assert_eq!(b, vec![buf(i as u64)]);
    }
    let (h, b) = q.pop_avail().unwrap();
    assert_eq!(h, again);
    assert_eq!(b, vec![buf(9)]);
    assert_eq!(q.pop_avail(), None);
}

#[test]
fn split_indices_wrap_at_16_bits() {
    let mut q = SplitQueue::new(1, false).unwrap();
    for i in 0..70000u32 {
        let head = q.add_buffer(&[buf(1)]).unwrap();
        assert_eq!(head, 0);
        assert_eq!(q.pop_avail().unwrap().0, 0);
        q.push_used(0, i).unwrap();
        assert_eq!(q.poll_used(), Some(UsedElem { id: 0, len: i }));
        q.free_chain(0).unwrap();
    }
    assert_eq!(q.avail_idx(), (70000u32 % 65536) as u16);
    assert_eq!(q.used_idx(), q.last_used_idx());
    assert_eq!(q.used_idx(), q.avail_idx());
}

#[test]
fn split_queue_full_then_room() {
    let mut q = SplitQueue::new(4, false).unwrap();
    let a = q.add_buffer(&chain_of(3)).unwrap();
    assert_eq!(q.num_free(), 1);
    // Two slots are asked for and one is free.
    assert_eq!(q.add_buffer(&chain_of(2)), Err(Error::QueueFull));
    assert_eq!(q.num_free(), 1);
    assert_eq!(q.avail_idx(), 1);
    // The refused chain has left nothing behind.
    let (head, bufs) = q.pop_avail().unwrap();
    assert_eq!(head, a);
    assert_eq!(bufs, chain_of(3));
    assert_eq!(q.pop_avail(), None);
    q.push_used(a, 0).unwrap();
    assert_eq!(q.poll_used().unwrap().id, a as u32);
    // Polling alone frees nothing.
    assert_eq!(q.add_buffer(&chain_of(2)), Err(Error::QueueFull));
    assert_eq!(q.free_chain(a), Ok(3));
    assert_eq!(q.num_free(), 4);
    let b = q.add_buffer(&chain_of(3)).unwrap();
    assert_eq!(q.pop_avail().unwrap(), (b, chain_of(3)));
}

#[test]
fn split_malformed_chains() {
    let mut q = SplitQueue::new(4, true).unwrap();
    assert_eq!(q.add_buffer(&[]), Err(Error::MalformedChain));
    assert_eq!(q.add_buffer(&chain_of(5)), Err(Error::MalformedChain));
    assert_eq!(q.num_free(), 4);
    assert_eq!(q.avail_idx(), 0);
    // A chain as long as the queue is accepted.
    assert!(q.add_buffer(&chain_of(4)).is_ok());
}

#[test]
fn split_device_cannot_complete_what_it_has_not_taken() {
    let mut q = SplitQueue::new(4, false).unwrap();
    assert_eq!(q.push_used(0, 1), Err(Error::MalformedChain));
    assert_eq!(q.push_used(9, 1), Err(Error::MalformedChain));
    let head = q.add_buffer(&chain_of(2)).unwrap();
    // Published, but not taken.
    assert_eq!(q.push_used(head, 1), Err(Error::MalformedChain));
    assert_eq!(q.used_idx(), 0);
    q.pop_avail().unwrap();
    assert_eq!(q.push_used(head, 1), Ok(()));
    // Not twice.
    assert_eq!(q.push_used(head, 1), Err(Error::MalformedChain));
    assert_eq!(q.used_idx(), 1);
}

#[test]
fn split_free_chain_checks_the_head() {
    let mut q = SplitQueue::new(4, false).unwrap();
    assert_eq!(q.free_chain(0), Err(Error::MalformedChain));
    assert_eq!(q.free_chain(4), Err(Error::MalformedChain));
    let head = q.add_buffer(&chain_of(2)).unwrap();
    assert_eq!(q.free_chain(head), Err(Error::MalformedChain));
    q.pop_avail().unwrap();
    assert_eq!(q.free_chain(head), Err(Error::MalformedChain));
    q.push_used(head, 0).unwrap();
    assert_eq!(q.free_chain(head), Err(Error::MalformedChain));
    q.poll_used().unwrap();
    assert_eq!(q.free_chain(head), Ok(2));
    assert_eq!(q.free_chain(head), Err(Error::MalformedChain));
    assert_eq!(q.num_free(), 4);
}

#[test]
fn split_completions_out_of_order() {
    let mut q = SplitQueue::new(8, false).unwrap();
    let a = q.add_buffer(&chain_of(2)).unwrap();
    let b = q.add_buffer(&chain_of(3)).unwrap();
    let c = q.add_buffer(&chain_of(1)).unwrap();
    assert_eq!(q.pop_avail().unwrap().0, a);
    assert_eq!(q.pop_avail().unwrap().0, b);
    assert_eq!(q.pop_avail().unwrap().0, c);
    q.push_used(b, 20).unwrap();
    q.push_used(c, 30).unwrap();
    q.push_used(a, 10).unwrap();
    assert_eq!(q.poll_used(), Some(UsedElem { id: b as u32, len: 20 }));
    assert_eq!(q.poll_used(), Some(UsedElem { id: c as u32, len: 30 }));
    assert_eq!(q.poll_used(), Some(UsedElem { id: a as u32, len: 10 }));
    assert_eq!(q.poll_used(), None);
    assert_eq!(q.free_chain(a), Ok(2));
    assert_eq!(q.free_chain(c), Ok(1));
    assert_eq!(q.free_chain(b), Ok(3));
    assert_eq!(q.num_free(), 8);
}

#[test]
fn split_indirect_chain_is_read_as_if_inlined() {
    for k in 1..=6usize {
        let mut q = SplitQueue::new(8, true).unwrap();
        let chain = chain_of(k);
        let table = build_indirect_table(&chain).unwrap();
        assert_eq!(table.len(), k);
        let head = q.add_indirect(0xdead_0000, table).unwrap();
        // One slot of the descriptor table, whatever the length.
        assert_eq!(q.num_free(), 7);
        let d = q.desc(head).unwrap();
        assert_eq!(d.addr, 0xdead_0000);
        assert_eq!(d.len, 16 * k as u32);
        assert_eq!(d.flags, DescF::new(false, false, true));
        let (taken, bufs) = q.pop_avail().unwrap();
        assert_eq!(taken, head);
        assert_eq!(bufs, chain);
        q.push_used(head, 5).unwrap();
        assert_eq!(q.poll_used(), Some(UsedElem { id: head as u32, len: 5 }));
        assert_eq!(q.free_chain(head), Ok(1));
        assert_eq!(q.num_free(), 8);
        // The slot is a plain one again.
        let head = q.add_buffer(&chain_of(2)).unwrap();
        assert_eq!(q.pop_avail().unwrap(), (head, chain_of(2)));
    }
}

#[test]
fn split_nested_indirect_is_rejected() {
    let mut q = SplitQueue::new(8, true).unwrap();
    let mut table = build_indirect_table(&chain_of(3)).unwrap();
    table[1].flags = DescF { bits: table[1].flags.bits | DescF::INDIRECT };
    assert_eq!(read_indirect(&table), Err(Error::MalformedChain));
    assert_eq!(q.add_indirect(0x1000, table), Err(Error::MalformedChain));
    assert_eq!(q.num_free(), 8);
    assert_eq!(q.avail_idx(), 0);
    assert_eq!(q.pop_avail(), None);
}

#[test]
fn split_indirect_refusals() {
    let table = build_indirect_table(&chain_of(2)).unwrap();
    // Not negotiated.
    let mut q = SplitQueue::new(4, false).unwrap();
    assert!(!q.indirect());
    assert_eq!(q.add_indirect(0, table.clone()), Err(Error::UnsupportedFeature));
    // Not negotiated comes before malformed.
    assert_eq!(q.add_indirect(0, Vec::new()), Err(Error::UnsupportedFeature));
    let mut q = SplitQueue::new(4, true).unwrap();
    assert!(q.indirect());
    // An empty table holds no chain.
    assert_eq!(q.add_indirect(0, Vec::new()), Err(Error::MalformedChain));
    // A table longer than the longest chain.
    let plain = Desc { addr: 0, len: 1, flags: DescF::new(false, false, false), next: 0 };
    assert_eq!(q.add_indirect(0, vec![plain; 32769]), Err(Error::MalformedChain));
    // A descriptor that is marked indirect, though the chain ends before it.
    let marked = Desc { addr: 0, len: 1, flags: DescF::new(false, false, true), next: 0 };
    assert_eq!(q.add_indirect(0, vec![plain, marked]), Err(Error::MalformedChain));
    assert_eq!(read_indirect(&[plain, marked]), Err(Error::MalformedChain));
    assert_eq!(q.num_free(), 4);
    assert_eq!(q.avail_idx(), 0);
    // A chain that leaves the table.
    let broken = vec![Desc { addr: 0, len: 0, flags: DescF::new(true, false, false), next: 7 }];
    assert_eq!(q.add_indirect(0, broken), Err(Error::MalformedChain));
    // No slot left.
    for _ in 0..4 {
        q.add_indirect(0, table.clone()).unwrap();
    }
    assert_eq!(q.add_indirect(0, table.clone()), Err(Error::QueueFull));
    // Malformed comes before full.
    assert_eq!(q.add_indirect(0, Vec::new()), Err(Error::MalformedChain));
}

#[test]
fn indirect_table_building() {
    assert_eq!(build_indirect_table(&[]), Err(Error::MalformedChain));
    let chain = chain_of(3);
    let table = build_indirect_table(&chain).unwrap();
    assert_eq!(
        table,
        vec![
            Desc { addr: chain[0].addr, len: chain[0].len, flags: DescF { bits: 1 }, next: 1 },
            Desc { addr: chain[1].addr, len: chain[1].len, flags: DescF { bits: 3 }, next: 2 },
            Desc { addr: chain[2].addr, len: chain[2].len, flags: DescF { bits: 0 }, next: 0 },
        ]
    );
    assert_eq!(read_indirect(&table), Ok(chain));
    let long = vec![buf(0); 32769];
    assert_eq!(build_indirect_table(&long), Err(Error::MalformedChain));
    assert!(build_indirect_table(&long[..32768]).is_ok());
}

#[test]
fn indirect_table_follows_its_links() {
    // The chain of a side table goes by its links, not by its order.
    let d = |n: u64, next: Option<u16>| Desc {
        addr: n,
        len: 1,
        flags: DescF::new(next.is_some(), false, false),
        next: next.unwrap_or(0),
    };
    let table = [d(10, Some(2)), d(11, None), d(12, Some(1))];
    let want = vec![
        Buffer { addr: 10, len: 1, write: false },
        Buffer { addr: 12, len: 1, write: false },
        Buffer { addr: 11, len: 1, write: false },
    ];
    assert_eq!(read_indirect(&table), Ok(want));
    assert_eq!(read_indirect(&[]), Err(Error::MalformedChain));
}

#[test]
fn split_notifications() {
    let mut q = SplitQueue::new(8, false).unwrap();
    let mut device = EventControl::new(true);
    let old = q.avail_idx();
    q.add_buffer(&chain_of(1)).unwrap();
    q.add_buffer(&chain_of(1)).unwrap();
    assert!(q.needs_notify(&device, old));
    device.disable();
    assert!(!q.needs_notify(&device, old));
    // The device asks to be told once index 1 is passed.
    device.set_desc(1, false).unwrap();
    assert!(q.needs_notify(&device, old));
    // Index 2 is not passed yet by moving from 0 to 2.
    device.set_desc(2, false).unwrap();
    assert!(!q.needs_notify(&device, old));
    let old = q.avail_idx();
    q.add_buffer(&chain_of(1)).unwrap();
    assert!(q.needs_notify(&device, old));

    let mut driver = EventControl::new(false);
    let (h, _) = q.pop_avail().unwrap();
    let old = q.used_idx();
    q.push_used(h, 0).unwrap();
    assert!(q.needs_interrupt(&driver, old));
    driver.disable();
    assert!(!q.needs_interrupt(&driver, old));
}

#[test]
fn split_memory_as_bytes() {
    let mut q = SplitQueue::new(2, false).unwrap();
    let mut driver = EventControl::new(true);
    let device = EventControl::new(true);
    let head = q.add_buffer(&[Buffer { addr: 0x0a, len: 0x0b, write: true }]).unwrap();
    assert_eq!(head, 0);
    assert_eq!(
        q.desc_table_bytes(),
        vec![
            0x0a, 0, 0, 0, 0, 0, 0, 0, 0x0b, 0, 0, 0, 2, 0, 0, 0, //
            0, 0, 0, 0, 0, 0, 0, 0, 0, 0, 0, 0, 0, 0, 0, 0,
        ]
    );
    // Flags 0, index 1, two entries, event index.
    assert_eq!(q.avail_ring_bytes(&driver), vec![0, 0, 1, 0, 0, 0, 0, 0, 0, 0]);
    driver.disable();
    assert_eq!(q.avail_ring_bytes(&driver), vec![1, 0, 1, 0, 0, 0, 0, 0, 0, 0]);
    driver.set_desc(0x0102, false).unwrap();
    assert_eq!(driver.off(), 0x0102);
    assert_eq!(q.avail_ring_bytes(&driver), vec![0, 0, 1, 0, 0, 0, 0, 0, 2, 1]);
    q.pop_avail().unwrap();
    q.push_used(head, 0x0c).unwrap();
    assert_eq!(
        q.used_ring_bytes(&device),
        vec![0, 0, 1, 0, 0, 0, 0, 0, 0x0c, 0, 0, 0, 0, 0, 0, 0, 0, 0, 0, 0, 0, 0]
    );
}

#[test]
fn split_reset() {
    let mut q = SplitQueue::new(4, true).unwrap();
    let a = q.add_buffer(&chain_of(2)).unwrap();
    q.add_indirect(0x100, build_indirect_table(&chain_of(3)).unwrap()).unwrap();
    q.pop_avail().unwrap();
    q.push_used(a, 1).unwrap();
    q.reset();
    assert_eq!(q.size(), 4);
    assert!(q.indirect());
    assert_eq!(q.num_free(), 4);
    assert_eq!(q.avail_idx(), 0);
    assert_eq!(q.used_idx(), 0);
    assert_eq!(q.last_used_idx(), 0);
    assert_eq!(q.pop_avail(), None);
    assert_eq!(q.poll_used(), None);
    let head = q.add_buffer(&chain_of(4)).unwrap();
    assert_eq!(q.pop_avail().unwrap(), (head, chain_of(4)));
}

#[test]
fn split_indirect_chain_longer_than_the_queue() {
    // A side table holds a chain that the descriptor table could not.
    let mut q = SplitQueue::new(2, true).unwrap();
    let chain = chain_of(9);
    let head = q.add_indirect(0x4000, build_indirect_table(&chain).unwrap()).unwrap();
    assert_eq!(q.num_free(), 1);
    assert_eq!(q.desc(head).unwrap().len, 16 * 9);
    assert_eq!(q.pop_avail().unwrap(), (head, chain));
    q.push_used(head, 3).unwrap();
    assert_eq!(q.poll_used(), Some(UsedElem { id: head as u32, len: 3 }));
    assert_eq!(q.free_chain(head), Ok(1));
    // As long as the longest chain.
    let long = build_indirect_table(&vec![buf(1); 32768]).unwrap();
    let head = q.add_indirect(0, long).unwrap();
    assert_eq!(q.desc(head).unwrap().len, 16 * 32768);
    assert_eq!(q.pop_avail().unwrap().1.len(), 32768);
}

#[test]
fn split_refusals_write_nothing() {
    let mut q = SplitQueue::new(2, true).unwrap();
    q.add_buffer(&chain_of(1)).unwrap();
    let table = q.desc_table_bytes();
    let driver = EventControl::new(false);
    let ring = q.avail_ring_bytes(&driver);
    assert_eq!(q.add_buffer(&chain_of(2)), Err(Error::QueueFull));
    assert_eq!(q.add_buffer(&[]), Err(Error::MalformedChain));
    let mut nested = build_indirect_table(&chain_of(2)).unwrap();
    nested[0].flags = DescF { bits: nested[0].flags.bits | DescF::INDIRECT };
    assert_eq!(q.add_indirect(0, nested), Err(Error::MalformedChain));
    assert_eq!(q.desc_table_bytes(), table);
    assert_eq!(q.avail_ring_bytes(&driver), ring);
    assert_eq!(q.num_free(), 1);
}

#[test]
fn split_run_in_order() {
    for n in 0..=8usize {
        let mut q = SplitQueue::new(8, false).unwrap();
        let chains: Vec<Vec<Buffer>> = (0..n).map(|i| vec![buf(i as u64)]).collect();
        let lens: Vec<u32> = (0..n as u32).map(|i| 100 + i).collect();
        let heads = q.add_all(&chains).unwrap();
        assert_eq!(heads.len(), n);
        assert_eq!(q.avail_idx() as usize, n);
        // The device is offered the heads in the order of adding.
        assert_eq!(q.serve_all(&lens), heads);
        assert_eq!(q.pop_avail(), None);
        // The driver is reported them in the same order.
        let polled = q.poll_all();
        assert_eq!(polled.len(), n);
        for i in 0..n {
            assert_eq!(polled[i], UsedElem { id: heads[i] as u32, len: lens[i] });
        }
        assert_eq!(q.poll_used(), None);
        assert_eq!(q.used_idx() as usize, n);
        assert_eq!(q.last_used_idx() as usize, n);
        assert_eq!(q.used_idx() as usize % 8, n % 8);
    }
}

#[test]
fn split_run_of_a_full_lap() {
    for size in [1u16, 2, 4, 8] {
        let mut q = SplitQueue::new(size, false).unwrap();
        let chains: Vec<Vec<Buffer>> = (0..size).map(|i| vec![buf(i as u64)]).collect();
        let heads = q.add_all(&chains).unwrap();
        assert_eq!(q.num_free(), 0);
        for i in 0..size {
            assert_eq!(q.avail(i), Some(heads[i as usize]));
        }
        // While all of them are in flight, one more is refused.
        assert_eq!(q.add_buffer(&[buf(99)]), Err(Error::QueueFull));
        assert_eq!(q.add_all(&[vec![buf(99)]]), Err(Error::QueueFull));
        // The first goes through and is reclaimed.
        assert_eq!(q.serve_all(&[7]), vec![heads[0]]);
        assert_eq!(q.used(0), Some(UsedElem { id: heads[0] as u32, len: 7 }));
        assert_eq!(q.poll_all(), vec![UsedElem { id: heads[0] as u32, len: 7 }]);
        assert_eq!(q.free_chain(heads[0]), Ok(1));
        // The next one falls on slot 0 of both rings.
        let last = q.add_buffer(&[buf(99)]).unwrap();
        assert_eq!(q.avail(0), Some(last));
        assert_eq!(q.avail_idx(), size + 1);
        let rest = vec![1u32; size as usize];
        let served = q.serve_all(&rest);
        assert_eq!(served.len(), size as usize);
        assert_eq!(served[size as usize - 1], last);
        assert_eq!(q.used(0), Some(UsedElem { id: served[size as usize - 1] as u32, len: 1 }));
        assert_eq!(q.used_idx(), size + 1);
        assert_eq!(q.poll_all().len(), size as usize);
        assert_eq!(q.last_used_idx(), size + 1);
    }
}

#[test]
fn split_add_all_is_all_or_nothing() {
    let mut q = SplitQueue::new(4, false).unwrap();
    let driver = EventControl::new(false);
    let table = q.desc_table_bytes();
    let ring = q.avail_ring_bytes(&driver);
    // Five spans for four slots.
    assert_eq!(q.add_all(&[chain_of(2), chain_of(3)]), Err(Error::QueueFull));
    // An empty chain among good ones, and one that is too long.
    assert_eq!(q.add_all(&[chain_of(1), vec![]]), Err(Error::MalformedChain));
    assert_eq!(q.add_all(&[chain_of(5)]), Err(Error::MalformedChain));
    // Malformed comes before full.
    assert_eq!(q.add_all(&[chain_of(4), chain_of(4), vec![]]), Err(Error::MalformedChain));
    assert_eq!(q.num_free(), 4);
    assert_eq!(q.avail_idx(), 0);
    assert_eq!(q.desc_table_bytes(), table);
    assert_eq!(q.avail_ring_bytes(&driver), ring);
    assert_eq!(q.add_all(&[]), Ok(vec![]));
    let heads = q.add_all(&[chain_of(1), chain_of(3)]).unwrap();
    assert_eq!(heads.len(), 2);
    assert_eq!(q.num_free(), 0);
    assert_eq!(q.pop_avail().unwrap(), (heads[0], chain_of(1)));
    assert_eq!(q.pop_avail().unwrap(), (heads[1], chain_of(3)));
}

#[test]
fn split_serve_all_takes_what_is_there() {
    let mut q = SplitQueue::new(4, false).unwrap();
    assert_eq!(q.serve_all(&[1, 2]), Vec::<u16>::new());
    let heads = q.add_all(&[chain_of(1), chain_of(1), chain_of(1)]).unwrap();
    // Fewer lengths than chains.
    assert_eq!(q.serve_all(&[5]), vec![heads[0]]);
    // More lengths than chains.
    assert_eq!(q.serve_all(&[6, 7, 8, 9]), vec![heads[1], heads[2]]);
    assert_eq!(
        q.poll_all(),
        vec![
            UsedElem { id: heads[0] as u32, len: 5 },
            UsedElem { id: heads[1] as u32, len: 6 },
            UsedElem { id: heads[2] as u32, len: 7 },
        ]
    );
    assert_eq!(q.poll_all(), vec![]);
}
