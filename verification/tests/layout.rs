use virtio_spec::pvirtq::{self, EventSuppress, Owner};
use virtio_spec::virtq::{self, Desc, DescF, UsedElem};
use virtio_spec::wire::{read_u16, read_u32, read_u64, write_u16, write_u32, write_u64};
use virtio_spec::{balloon, console, RingEventFlags};

#[test]
fn wire_reads_little_endian() {
    let bytes = [0x34u8, 0x12, 0x78, 0x56, 0x34, 0x12, 0xef, 0xcd, 0xab, 0x89, 0x67, 0x45, 0x23, 0x01];
    assert_eq!(read_u16(&bytes, 0), 0x1234);
    assert_eq!(read_u32(&bytes, 2), 0x1234_5678);
    assert_eq!(read_u64(&bytes, 6), 0x0123_4567_89ab_cdef);
    assert_eq!(read_u16(&bytes, 1), 0x7812);
}

#[test]
fn wire_writes_little_endian() {
    let mut out = vec![0xaau8];
    write_u16(&mut out, 0x1234);
    assert_eq!(out, vec![0xaa, 0x34, 0x12]);
    write_u32(&mut out, 0x1234_5678);
    assert_eq!(out, vec![0xaa, 0x34, 0x12, 0x78, 0x56, 0x34, 0x12]);
    let mut out = Vec::new();
    write_u64(&mut out, 0x0123_4567_89ab_cdef);
    assert_eq!(out, vec![0xef, 0xcd, 0xab, 0x89, 0x67, 0x45, 0x23, 0x01]);
}

#[test]
fn wire_round_trips() {
    for v in [0u16, 1, 255, 256, 0x8000, 0xffff] {
        let mut out = Vec::new();
        write_u16(&mut out, v);
        assert_eq!(read_u16(&out, 0), v);
    }
    for v in [0u32, 1, 0xff00, 0x8000_0000, 0xffff_ffff] {
        let mut out = Vec::new();
        write_u32(&mut out, v);
        assert_eq!(read_u32(&out, 0), v);
    }
    for v in [0u64, 1, 0xff00_0000_0000, 0x8000_0000_0000_0000, u64::MAX] {
        let mut out = Vec::new();
        write_u64(&mut out, v);
        assert_eq!(read_u64(&out, 0), v);
    }
}

#[test]
fn console_config_layout() {
    let bytes = [80u8, 0, 25, 0, 4, 0, 0, 0, 0x78, 0x56, 0x34, 0x12, 0xff];
    let c = console::Config::from_bytes(&bytes).unwrap();
    assert_eq!(c.cols(), 80);
    assert_eq!(c.rows(), 25);
    assert_eq!(c.max_nr_ports(), 4);
    assert_eq!(c.emerg_wr(), 0x1234_5678);
    assert_eq!(c.to_bytes(), bytes[..12].to_vec());
    assert_eq!(console::Config::SIZE, 12);
    assert!(console::Config::from_bytes(&bytes[..11]).is_none());
    assert!(console::Config::from_bytes(&[]).is_none());
}

#[test]
fn console_control_layout() {
    let c = console::Control { id: 0x0102_0304, event: 5, value: 0x0a0b };
    let bytes = c.to_bytes();
    assert_eq!(bytes, vec![4, 3, 2, 1, 5, 0, 0x0b, 0x0a]);
    assert_eq!(console::Control::from_bytes(&bytes), Some(c));
    assert_eq!(console::Control::from_bytes(&bytes[..7]), None);
    assert_eq!(console::Control::SIZE, 8);
}

#[test]
fn console_resize_layout() {
    let r = console::Resize { cols: 132, rows: 0x0143 };
    let bytes = r.to_bytes();
    assert_eq!(bytes, vec![132, 0, 0x43, 0x01]);
    assert_eq!(console::Resize::from_bytes(&bytes), Some(r));
    assert_eq!(console::Resize::from_bytes(&bytes[..3]), None);
    assert_eq!(console::Resize::SIZE, 4);
}

#[test]
fn balloon_config_layout() {
    let bytes = [1u8, 0, 0, 0, 2, 0, 0, 0, 3, 0, 0, 0, 0xef, 0xbe, 0xad, 0xde];
    let mut c = balloon::Config::from_bytes(&bytes).unwrap();
    assert_eq!(c.num_pages(), 1);
    assert_eq!(c.actual(), 2);
    assert_eq!(c.free_page_hint_cmd_id(), 3);
    assert_eq!(c.poison_val(), 0xdead_beef);
    assert_eq!(c.to_bytes(), bytes.to_vec());
    c.set_actual(0x0100);
    c.set_poison_val(7);
    assert_eq!(c.actual(), 0x0100);
    assert_eq!(c.poison_val(), 7);
    assert_eq!(c.num_pages(), 1);
    assert_eq!(c.to_bytes(), vec![1, 0, 0, 0, 0, 1, 0, 0, 3, 0, 0, 0, 7, 0, 0, 0]);
    assert!(balloon::Config::from_bytes(&bytes[..15]).is_none());
    assert_eq!(balloon::Config::SIZE, 16);
}

#[test]
fn split_desc_flags() {
    assert_eq!(DescF::NEXT, 1);
    assert_eq!(DescF::WRITE, 2);
    assert_eq!(DescF::INDIRECT, 4);
    assert_eq!(DescF::new(false, false, false).bits, 0);
    assert_eq!(DescF::new(true, false, false).bits, 1);
    assert_eq!(DescF::new(false, true, false).bits, 2);
    assert_eq!(DescF::new(true, true, false).bits, 3);
    assert_eq!(DescF::new(false, false, true).bits, 4);
    assert_eq!(DescF::new(true, true, true).bits, 7);
    let f = DescF { bits: 0x8005 };
    assert!(f.next());
    assert!(!f.write());
    assert!(f.indirect());
}

#[test]
fn split_desc_layout() {
    let d = Desc { addr: 0x0102_0304_0506_0708, len: 0x1000, flags: DescF { bits: 3 }, next: 0x0201 };
    let bytes = d.to_bytes();
    assert_eq!(bytes, vec![8, 7, 6, 5, 4, 3, 2, 1, 0, 0x10, 0, 0, 3, 0, 1, 2]);
    assert_eq!(Desc::from_bytes(&bytes), Some(d));
    assert_eq!(Desc::from_bytes(&bytes[..15]), None);
    assert_eq!(Desc::SIZE, 16);
    // Bits without a name survive the round trip.
    let odd = Desc { addr: 1, len: 2, flags: DescF { bits: 0xfff8 }, next: 3 };
    assert_eq!(Desc::from_bytes(&odd.to_bytes()), Some(odd));
}

#[test]
fn used_elem_layout() {
    let e = UsedElem { id: 7, len: 0x0001_0000 };
    let bytes = e.to_bytes();
    assert_eq!(bytes, vec![7, 0, 0, 0, 0, 0, 1, 0]);
    assert_eq!(UsedElem::from_bytes(&bytes), Some(e));
    assert_eq!(UsedElem::from_bytes(&bytes[..7]), None);
    assert_eq!(UsedElem::SIZE, 8);
}

#[test]
fn packed_desc_flags() {
    assert_eq!(pvirtq::DescF::NEXT, 1);
    assert_eq!(pvirtq::DescF::WRITE, 2);
    assert_eq!(pvirtq::DescF::INDIRECT, 4);
    assert_eq!(pvirtq::DescF::AVAIL, 0x80);
    assert_eq!(pvirtq::DescF::USED, 0x8000);
    let bits = |flags: pvirtq::DescF| {
        let bytes = pvirtq::Desc { addr: 0, len: 0, id: 0, flags }.to_bytes();
        u16::from_le_bytes([bytes[14], bytes[15]])
    };
    assert_eq!(bits(pvirtq::DescF::new(false, false, false, false, false)), 0);
    assert_eq!(bits(pvirtq::DescF::new(true, true, false, true, false)), 0x83);
    assert_eq!(bits(pvirtq::DescF::new(false, false, true, false, true)), 0x8004);
    assert_eq!(bits(pvirtq::DescF::new(true, true, true, true, true)), 0x8087);
    let f = pvirtq::DescF::from_bits_retain(0x0102);
    assert_eq!(bits(f), 0x0102);
    assert!(f.write());
    assert!(!f.next());
    assert!(!f.indirect());
}

#[test]
fn packed_desc_layout() {
    let d = pvirtq::Desc {
        addr: 0x1122_3344_5566_7788,
        len: 0x20,
        id: 0x0a0b,
        flags: pvirtq::DescF::new(true, false, false, true, false),
    };
    let bytes = d.to_bytes();
    assert_eq!(
        bytes,
        vec![0x88, 0x77, 0x66, 0x55, 0x44, 0x33, 0x22, 0x11, 0x20, 0, 0, 0, 0x0b, 0x0a, 0x81, 0]
    );
    assert_eq!(pvirtq::Desc::from_bytes(&bytes), Some(d));
    assert_eq!(pvirtq::Desc::from_bytes(&bytes[..15]), None);
    assert_eq!(pvirtq::Desc::SIZE, 16);
}

fn expected_owner(avail: bool, used: bool, wrap: bool) -> Owner {
    if (avail != used) ^ wrap {
        Owner::Driver
    } else {
        Owner::Device
    }
}

#[test]
fn packed_ownership_table() {
    for avail in [false, true] {
        for used in [false, true] {
            for wrap in [false, true] {
                let f = pvirtq::DescF::new(false, false, false, avail, used);
                assert_eq!(f.owner(wrap), expected_owner(avail, used, wrap));
                // Exactly one side owns the slot, and flipping the wrap
                // counter alone flips the owner.
                assert_ne!(f.owner(wrap), f.owner(!wrap));
                assert_eq!(f.avail(wrap), avail == wrap && used != wrap);
                assert_eq!(f.used(wrap), avail == wrap && used == wrap);
                // Never both available and used.
                assert!(!(f.avail(wrap) && f.used(wrap)));
            }
        }
    }
}

#[test]
fn packed_ownership_rows() {
    let f = |a, u| pvirtq::DescF::new(false, false, false, a, u);
    assert_eq!(f(false, true).owner(false), Owner::Driver);
    assert_eq!(f(true, false).owner(false), Owner::Driver);
    assert_eq!(f(false, false).owner(true), Owner::Driver);
    assert_eq!(f(true, true).owner(true), Owner::Driver);
    assert_eq!(f(false, false).owner(false), Owner::Device);
    assert_eq!(f(true, true).owner(false), Owner::Device);
    assert_eq!(f(false, true).owner(true), Owner::Device);
    assert_eq!(f(true, false).owner(true), Owner::Device);
}

#[test]
fn packed_ownership_goes_by_the_marks_alone() {
    for avail in [false, true] {
        for used in [false, true] {
            for wrap in [false, true] {
                let plain = pvirtq::DescF::new(false, false, false, avail, used);
                for next in [false, true] {
                    for write in [false, true] {
                        for indirect in [false, true] {
                            let f = pvirtq::DescF::new(next, write, indirect, avail, used);
                            assert_eq!(f.owner(wrap), plain.owner(wrap));
                        }
                    }
                }
                let marks = (if avail { 0x80 } else { 0 }) | (if used { 0x8000 } else { 0 });
                let f = pvirtq::DescF::from_bits_retain(marks | 0x7f7f);
                assert_eq!(f.owner(wrap), plain.owner(wrap));
            }
        }
    }
}

#[test]
fn packed_ownership_ignores_other_bits() {
    let f = pvirtq::DescF::from_bits_retain(0x80 | 0x7f);
    assert!(f.avail(true));
    assert_eq!(f.owner(true), Owner::Device);
    assert_eq!(f.owner(false), Owner::Driver);
    let f = pvirtq::DescF::from_bits_retain(0x8000 | 0x7f00);
    assert!(f.avail(false));
    assert!(!f.used(false));
}

#[test]
fn event_suppress_layout() {
    let e = EventSuppress { desc_event_off: 0x1234, desc_event_wrap: true, desc_event_flags: RingEventFlags::Desc };
    let bytes = e.to_bytes();
    assert_eq!(bytes, vec![0x34, 0x92, 2, 0]);
    assert_eq!(EventSuppress::from_bytes(&bytes), Some(e));
    let e = EventSuppress { desc_event_off: 5, desc_event_wrap: false, desc_event_flags: RingEventFlags::Disable };
    assert_eq!(e.to_bytes(), vec![5, 0, 1, 0]);
    assert_eq!(EventSuppress::from_bytes(&[5, 0, 1, 0]), Some(e));
    assert_eq!(EventSuppress::from_bytes(&[5, 0, 1]), None);
    // Bits beyond the two of the flags are dropped.
    assert_eq!(
        EventSuppress::from_bytes(&[0, 0x80, 0xfc, 0xff]),
        Some(EventSuppress { desc_event_off: 0, desc_event_wrap: true, desc_event_flags: RingEventFlags::Enable })
    );
    assert_eq!(EventSuppress::SIZE, 4);
}

#[test]
fn chain_reading() {
    let d = |next: bool, n: u16| Desc { addr: n as u64, len: 1, flags: DescF::new(next, false, false), next: n };
    // 0 -> 2 -> 1 (end)
    let table = [d(true, 2), d(false, 0), d(true, 1)];
    let chain = virtq::read_chain(&table, 0).unwrap();
    assert_eq!(chain, vec![table[0], table[2], table[1]]);
    assert_eq!(virtq::read_chain(&table, 1).unwrap(), vec![table[1]]);
    // Head outside the table.
    assert_eq!(virtq::read_chain(&table, 3), Err(virtio_spec::error::Error::MalformedChain));
    // Next outside the table.
    let table = [d(true, 9)];
    assert_eq!(virtq::read_chain(&table, 0), Err(virtio_spec::error::Error::MalformedChain));
    // A circle.
    let table = [d(true, 1), d(true, 0)];
    assert_eq!(virtq::read_chain(&table, 0), Err(virtio_spec::error::Error::MalformedChain));
    // An empty table.
    assert_eq!(virtq::read_chain(&[], 0), Err(virtio_spec::error::Error::MalformedChain));
}

#[test]
fn chain_resolving() {
    let d = |next: bool, n: u16| Desc { addr: 0x100 + n as u64, len: 8, flags: DescF::new(next, n == 1, false), next: n };
    let table = [d(true, 2), d(false, 1), d(true, 1)];
    // Through the table: slots 0, 2, 1.
    assert_eq!(
        virtq::resolve_chain(&table, &[], 0),
        Ok(vec![
            virtq::Buffer { addr: 0x102, len: 8, write: false },
            virtq::Buffer { addr: 0x101, len: 8, write: true },
            virtq::Buffer { addr: 0x101, len: 8, write: true },
        ])
    );
    // Through a side table.
    let side = virtq::build_indirect_table(&[virtq::Buffer { addr: 7, len: 9, write: true }]).unwrap();
    let table = [Desc { addr: 0x5000, len: 16, flags: DescF::new(false, false, true), next: 0 }];
    assert_eq!(virtq::resolve_chain(&table, &side, 0), Ok(vec![virtq::Buffer { addr: 7, len: 9, write: true }]));
    // An indirect descriptor whose side table holds no chain.
    assert_eq!(virtq::resolve_chain(&table, &[], 0), Err(virtio_spec::error::Error::MalformedChain));
    // A head outside the table.
    assert_eq!(virtq::resolve_chain(&table, &side, 1), Err(virtio_spec::error::Error::MalformedChain));
}

#[test]
fn console_config_in_place() {
    let bytes = [80u8, 0, 25, 0, 4, 0, 0, 0, 0x78, 0x56, 0x34, 0x12, 0xff];
    let c = console::ConfigRef::new(&bytes).unwrap();
    assert_eq!(c.cols(), 80);
    assert_eq!(c.rows(), 25);
    assert_eq!(c.max_nr_ports(), 4);
    assert_eq!(c.emerg_wr(), 0x1234_5678);
    assert!(console::ConfigRef::new(&bytes[..11]).is_none());
    assert!(console::ConfigRef::new(&bytes[..12]).is_some());
}

#[test]
fn balloon_config_in_place() {
    let mut bytes = [1u8, 0, 0, 0, 2, 0, 0, 0, 3, 0, 0, 0, 0xef, 0xbe, 0xad, 0xde, 0x55];
    {
        let mut c = balloon::ConfigMut::new(&mut bytes).unwrap();
        assert_eq!(c.num_pages(), 1);
        assert_eq!(c.actual(), 2);
        assert_eq!(c.free_page_hint_cmd_id(), 3);
        assert_eq!(c.poison_val(), 0xdead_beef);
        c.set_actual(0x0a0b_0c0d);
        assert_eq!(c.actual(), 0x0a0b_0c0d);
        c.set_poison_val(0x0102_0304);
        assert_eq!(c.poison_val(), 0x0102_0304);
        assert_eq!(c.num_pages(), 1);
        assert_eq!(c.free_page_hint_cmd_id(), 3);
    }
    // Written in place, in little-endian order, and nothing else touched.
    assert_eq!(bytes, [1, 0, 0, 0, 0x0d, 0x0c, 0x0b, 0x0a, 3, 0, 0, 0, 4, 3, 2, 1, 0x55]);
    let mut short = [0u8; 15];
    assert!(balloon::ConfigMut::new(&mut short).is_none());
}

#[test]
fn wire_stores_in_place() {
    let mut bytes = [0xaau8; 7];
    virtio_spec::wire::store_u32(&mut bytes, 2, 0x1122_3344);
    assert_eq!(bytes, [0xaa, 0xaa, 0x44, 0x33, 0x22, 0x11, 0xaa]);
}

#[test]
fn split_ring_layouts() {
    let table = [
        Desc { addr: 1, len: 2, flags: DescF { bits: 1 }, next: 1 },
        Desc { addr: 3, len: 4, flags: DescF { bits: 2 }, next: 0 },
    ];
    assert_eq!(
        virtq::table_bytes(&table),
        vec![
            1, 0, 0, 0, 0, 0, 0, 0, 2, 0, 0, 0, 1, 0, 1, 0, //
            3, 0, 0, 0, 0, 0, 0, 0, 4, 0, 0, 0, 2, 0, 0, 0,
        ]
    );
    assert_eq!(virtq::table_bytes(&[]), Vec::<u8>::new());
    assert_eq!(virtq::avail_bytes(1, 0x0203, &[5, 0x0100], 7), vec![1, 0, 3, 2, 5, 0, 0, 1, 7, 0]);
    assert_eq!(virtq::avail_bytes(0, 0, &[], 0), vec![0, 0, 0, 0, 0, 0]);
    assert_eq!(
        virtq::used_bytes(0, 1, &[UsedElem { id: 2, len: 0x0300 }], 9),
        vec![0, 0, 1, 0, 2, 0, 0, 0, 0, 3, 0, 0, 9, 0]
    );
}

#[test]
fn packed_ring_layout() {
    let ring = [
        pvirtq::Desc { addr: 1, len: 2, id: 3, flags: pvirtq::DescF::from_bits_retain(0x0080) },
        pvirtq::Desc { addr: 4, len: 5, id: 6, flags: pvirtq::DescF::from_bits_retain(0x8000) },
    ];
    assert_eq!(
        pvirtq::ring_bytes(&ring),
        vec![
            1, 0, 0, 0, 0, 0, 0, 0, 2, 0, 0, 0, 3, 0, 0x80, 0, //
            4, 0, 0, 0, 0, 0, 0, 0, 5, 0, 0, 0, 6, 0, 0, 0x80,
        ]
    );
}
