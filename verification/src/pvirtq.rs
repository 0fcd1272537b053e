//! Packed Virtqueues: the layout of the descriptor ring and of the event
//! suppression structure, and the decoding of descriptor ownership.

use vstd::prelude::*;
use crate::RingEventFlags;
use crate::virtq::Buffer;
use crate::wire::{le_seq, le_value, read_u16, read_u32, read_u64, write_u16, write_u32, write_u64, lemma_le_seq_len, lemma_le_value_of_u16, lemma_le_value_of_u32, lemma_le_value_of_u64, lemma_field_2, lemma_field_4, lemma_field_8};

verus! {

/// The side that owns a slot of the descriptor ring.
#[derive(Clone, Copy, Debug, PartialEq, Eq, Structural)]
pub enum Owner {
    /// The driver owns the slot.
    Driver,
    /// The device owns the slot.
    Device,
}

/// Whether a descriptor with the two marks `avail` and `used` is available
/// to the device, for a reader whose wrap counter is `wrap`.
pub open spec fn avail_for(avail: bool, used: bool, wrap: bool) -> bool {
    avail == wrap && used != wrap
}

/// Whether a descriptor with the two marks `avail` and `used` was used by
/// the device, for a reader whose wrap counter is `wrap`.
pub open spec fn used_for(avail: bool, used: bool, wrap: bool) -> bool {
    avail == wrap && used == wrap
}

/// The side that owns a slot whose descriptor has the two marks `avail` and
/// `used`, for a reader whose wrap counter is `wrap`: the driver where an
/// odd number of `avail != used` and `wrap` holds, and the device else.
pub open spec fn parity_owner(avail: bool, used: bool, wrap: bool) -> Owner {
    if (avail != used) != wrap {
        Owner::Driver
    } else {
        Owner::Device
    }
}

/// The owner of a slot for each pair of marks and each wrap counter.
/// Exactly one side owns it, and the other side owns it where the wrap
/// counter alone, or one of the marks alone, is the other way round.
pub proof fn lemma_owner(avail: bool, used: bool, wrap: bool)
    ensures
        parity_owner(false, true, false) == Owner::Driver,
        parity_owner(true, false, false) == Owner::Driver,
        parity_owner(false, false, true) == Owner::Driver,
        parity_owner(true, true, true) == Owner::Driver,
        parity_owner(false, false, false) == Owner::Device,
        parity_owner(true, true, false) == Owner::Device,
        parity_owner(false, true, true) == Owner::Device,
        parity_owner(true, false, true) == Owner::Device,
        parity_owner(avail, used, wrap) == Owner::Driver <==> parity_owner(avail, used, wrap)
            != Owner::Device,
        parity_owner(avail, used, !wrap) != parity_owner(avail, used, wrap),
        parity_owner(!avail, used, wrap) != parity_owner(avail, used, wrap),
        parity_owner(avail, !used, wrap) != parity_owner(avail, used, wrap),
{
}

/// No descriptor is both available and used for one wrap counter.
pub proof fn lemma_avail_or_used(avail: bool, used: bool, wrap: bool)
    ensures
        !(avail_for(avail, used, wrap) && used_for(avail, used, wrap)),
{
}

/// Packed virtqueue descriptor flags
///
/// The two ownership marks can be read only against a wrap counter: the
/// flags hand out neither the marks nor their bits, so that no reader takes
/// a mark of another lap for one of its own. Bits without a name are kept as
/// they are, and come out again with the bytes of the descriptor.
#[derive(Clone, Copy, Debug, PartialEq, Eq, Structural)]
pub struct DescF {
    bits: u16,
}

impl DescF {
    /// This marks a buffer as continuing via the next field.
    pub const NEXT: u16 = 1;

    /// This marks a buffer as device write-only (otherwise device read-only).
    pub const WRITE: u16 = 2;

    /// This means the buffer contains a list of buffer descriptors.
    pub const INDIRECT: u16 = 4;

    /// Mark a descriptor as available or used in packed ring.
    pub const AVAIL: u16 = 0x80;

    /// Mark a descriptor as available or used in packed ring.
    pub const USED: u16 = 0x8000;

    /// The bits of the flags.
    pub closed spec fn view(self) -> u16 {
        self.bits
    }

    /// Whether the descriptor continues in the next slot of the ring.
    pub closed spec fn has_next(self) -> bool {
        self.bits & 1 != 0
    }

    /// Whether the device writes the buffer.
    pub closed spec fn has_write(self) -> bool {
        self.bits & 2 != 0
    }

    /// Whether the buffer holds a table of descriptors.
    pub closed spec fn has_indirect(self) -> bool {
        self.bits & 4 != 0
    }

    /// The first of the two ownership marks.
    pub closed spec fn avail_mark(self) -> bool {
        self.bits & 0x80 != 0
    }

    /// The second of the two ownership marks.
    pub closed spec fn used_mark(self) -> bool {
        self.bits & 0x8000 != 0
    }

    /// Whether the descriptor is available to the device, for a reader
    /// whose wrap counter is `wrap`.
    pub open spec fn is_avail(self, wrap: bool) -> bool {
        avail_for(self.avail_mark(), self.used_mark(), wrap)
    }

    /// Whether the descriptor was used by the device, for a reader whose
    /// wrap counter is `wrap`.
    pub open spec fn is_used(self, wrap: bool) -> bool {
        used_for(self.avail_mark(), self.used_mark(), wrap)
    }

    /// The flags with the named bits as given and no other bit.
    pub closed spec fn of(next: bool, write: bool, indirect: bool, avail: bool, used: bool) -> DescF {
        DescF {
            bits: (if next { 1u16 } else { 0u16 }) | (if write { 2u16 } else { 0u16 }) | (if indirect { 4u16 } else { 0u16 }) | (if avail { 0x80u16 } else { 0u16 }) | (if used { 0x8000u16 } else { 0u16 }),
        }
    }

    /// The named bits of built flags are those they were built from.
    pub proof fn lemma_of(next: bool, write: bool, indirect: bool, avail: bool, used: bool)
        ensures
            Self::of(next, write, indirect, avail, used).has_next() == next,
            Self::of(next, write, indirect, avail, used).has_write() == write,
            Self::of(next, write, indirect, avail, used).has_indirect() == indirect,
            Self::of(next, write, indirect, avail, used).avail_mark() == avail,
            Self::of(next, write, indirect, avail, used).used_mark() == used,
    {
        let n = if next { 1u16 } else { 0u16 };
        let w = if write { 2u16 } else { 0u16 };
        let i = if indirect { 4u16 } else { 0u16 };
        let a = if avail { 0x80u16 } else { 0u16 };
        let u = if used { 0x8000u16 } else { 0u16 };
        assert(((n | w | i | a | u) & 1 != 0) == (n == 1) && ((n | w | i | a | u) & 2 != 0) == (w
            == 2) && ((n | w | i | a | u) & 4 != 0) == (i == 4) && ((n | w | i | a | u) & 0x80 != 0)
            == (a == 0x80) && ((n | w | i | a | u) & 0x8000 != 0) == (u == 0x8000))
            by (bit_vector)
            requires
                n == 0 || n == 1,
                w == 0 || w == 2,
                i == 0 || i == 4,
                a == 0 || a == 0x80,
                u == 0 || u == 0x8000,
        ;
    }

    /// Builds the flags with the named bits as given.
    pub fn new(next: bool, write: bool, indirect: bool, avail: bool, used: bool) -> (r: DescF)
        ensures
            r == Self::of(next, write, indirect, avail, used),
            r.has_next() == next,
            r.has_write() == write,
            r.has_indirect() == indirect,
            r.avail_mark() == avail,
            r.used_mark() == used,
    {
        proof {
            Self::lemma_of(next, write, indirect, avail, used);
        }
        let n: u16 = if next { 1 } else { 0 };
        let w: u16 = if write { 2 } else { 0 };
        let i: u16 = if indirect { 4 } else { 0 };
        let a: u16 = if avail { 0x80 } else { 0 };
        let u: u16 = if used { 0x8000 } else { 0 };
        DescF { bits: n | w | i | a | u }
    }

    /// The flags with exactly the bits of `bits`, named or not.
    pub fn from_bits_retain(bits: u16) -> (r: DescF)
        ensures
            r@ == bits,
    {
        DescF { bits }
    }

    /// Whether the descriptor continues in the next slot of the ring.
    pub fn next(self) -> (r: bool)
        ensures
            r == self.has_next(),
    {
        self.bits & 1 != 0
    }

    /// Whether the device writes the buffer.
    pub fn write(self) -> (r: bool)
        ensures
            r == self.has_write(),
    {
        self.bits & 2 != 0
    }

    /// Whether the buffer holds a table of descriptors.
    pub fn indirect(self) -> (r: bool)
        ensures
            r == self.has_indirect(),
    {
        self.bits & 4 != 0
    }

    /// Tests whether the descriptor is available to the device, for a
    /// reader whose wrap counter is `wrap`.
    pub fn avail(self, wrap: bool) -> (r: bool)
        ensures
            r == self.is_avail(wrap),
    {
        let a = self.bits & 0x80 != 0;
        let u = self.bits & 0x8000 != 0;
        a == wrap && u != wrap
    }

    /// Tests whether the descriptor was used by the device, for a reader
    /// whose wrap counter is `wrap`.
    pub fn used(self, wrap: bool) -> (r: bool)
        ensures
            r == self.is_used(wrap),
    {
        let a = self.bits & 0x80 != 0;
        let u = self.bits & 0x8000 != 0;
        a == wrap && u == wrap
    }

    /// The side that owns the slot of the descriptor, for a reader whose
    /// wrap counter is `wrap`: the driver where an odd number of "the two
    /// marks differ" and "the wrap counter is set" holds, and the device
    /// else. No other bit of the flags enters.
    pub fn owner(self, wrap: bool) -> (r: Owner)
        ensures
            r == parity_owner(self.avail_mark(), self.used_mark(), wrap),
    {
        let a = self.bits & 0x80 != 0;
        let u = self.bits & 0x8000 != 0;
        if (a != u) != wrap {
            Owner::Driver
        } else {
            Owner::Device
        }
    }
}

/// Packed Virtqueue Descriptor
#[derive(Clone, Copy, Debug, PartialEq, Eq, Structural)]
pub struct Desc {
    /// Buffer Address.
    pub addr: u64,
    /// Buffer Length.
    pub len: u32,
    /// Buffer ID.
    pub id: u16,
    /// The flags depending on descriptor type.
    pub flags: DescF,
}

impl Desc {
    /// The size of a descriptor in bytes.
    pub const SIZE: usize = 16;

    /// The sixteen bytes of the descriptor.
    pub open spec fn bytes(self) -> Seq<u8> {
        le_seq(self.addr as nat, 8) + le_seq(self.len as nat, 4) + le_seq(self.id as nat, 2)
            + le_seq(self.flags@ as nat, 2)
    }

    /// The address, the length, the buffer ID and the bits of the flags
    /// that sixteen bytes of memory hold.
    pub open spec fn parse(bytes: Seq<u8>) -> (u64, u32, u16, u16)
        recommends
            bytes.len() == 16,
    {
        (
            le_value(bytes.subrange(0, 8)) as u64,
            le_value(bytes.subrange(8, 12)) as u32,
            le_value(bytes.subrange(12, 14)) as u16,
            le_value(bytes.subrange(14, 16)) as u16,
        )
    }

    /// The address, the length, the buffer ID and the bits of the flags of
    /// the descriptor.
    pub open spec fn fields(self) -> (u64, u32, u16, u16) {
        (self.addr, self.len, self.id, self.flags@)
    }

    /// A descriptor that was written to memory is read back unchanged.
    pub proof fn lemma_parse_bytes(self)
        ensures
            self.bytes().len() == 16,
            Self::parse(self.bytes()) == self.fields(),
    {
        lemma_le_value_of_u64(self.addr);
        lemma_le_value_of_u32(self.len);
        lemma_le_value_of_u16(self.id);
        lemma_le_value_of_u16(self.flags@);
        let all = self.bytes();
        assert(all.subrange(0, 8) =~= le_seq(self.addr as nat, 8));
        assert(all.subrange(8, 12) =~= le_seq(self.len as nat, 4));
        assert(all.subrange(12, 14) =~= le_seq(self.id as nat, 2));
        assert(all.subrange(14, 16) =~= le_seq(self.flags@ as nat, 2));
    }

    /// Memory that was read as a descriptor is written back unchanged.
    pub proof fn lemma_bytes_parse(self, bytes: Seq<u8>)
        requires
            bytes.len() == 16,
            self.fields() == Self::parse(bytes),
        ensures
            self.bytes() == bytes,
    {
        lemma_field_8(bytes.subrange(0, 8));
        lemma_field_4(bytes.subrange(8, 12));
        lemma_field_2(bytes.subrange(12, 14));
        lemma_field_2(bytes.subrange(14, 16));
        assert(self.bytes() =~= bytes);
    }

    /// Reads a descriptor from the start of `bytes`, or nothing where it
    /// holds fewer than sixteen bytes.
    pub fn from_bytes(bytes: &[u8]) -> (r: Option<Desc>)
        ensures
            bytes@.len() < 16 ==> r is None,
            bytes@.len() >= 16 ==> r is Some && r->0.fields() == Desc::parse(
                bytes@.subrange(0, 16),
            ),
    {
        if bytes.len() < 16 {
            return None;
        }
        let ghost head = bytes@.subrange(0, 16);
        assert(head.subrange(0, 8) =~= bytes@.subrange(0, 8));
        assert(head.subrange(8, 12) =~= bytes@.subrange(8, 12));
        assert(head.subrange(12, 14) =~= bytes@.subrange(12, 14));
        assert(head.subrange(14, 16) =~= bytes@.subrange(14, 16));
        Some(
            Desc {
                addr: read_u64(bytes, 0),
                len: read_u32(bytes, 8),
                id: read_u16(bytes, 12),
                flags: DescF::from_bits_retain(read_u16(bytes, 14)),
            },
        )
    }

    /// The sixteen bytes of the descriptor.
    pub fn to_bytes(&self) -> (r: Vec<u8>)
        ensures
            r@ == self.bytes(),
            r@.len() == 16,
    {
        let mut out: Vec<u8> = Vec::new();
        write_u64(&mut out, self.addr);
        write_u32(&mut out, self.len);
        write_u16(&mut out, self.id);
        write_u16(&mut out, self.flags.bits);
        proof {
            lemma_le_seq_len(self.addr as nat, 8);
            lemma_le_seq_len(self.len as nat, 4);
            lemma_le_seq_len(self.id as nat, 2);
            lemma_le_seq_len(self.flags@ as nat, 2);
            assert(out@ =~= self.bytes());
        }
        out
    }
}

/// The descriptor that makes `buffer` available under the buffer ID `id`,
/// in a lap whose wrap counter is `wrap`, continuing in the next slot
/// where `next` is set.
pub open spec fn avail_desc(buffer: Buffer, id: u16, next: bool, wrap: bool) -> Desc {
    Desc {
        addr: buffer.addr,
        len: buffer.len,
        id,
        flags: DescF::of(next, buffer.write, false, wrap, !wrap),
    }
}

/// The descriptor that returns the buffer of ID `id` as used, with `len`
/// bytes written, in a lap whose wrap counter is `wrap`.
pub open spec fn used_desc(id: u16, len: u32, wrap: bool) -> Desc {
    Desc { addr: 0, len, id, flags: DescF::of(false, false, false, wrap, wrap) }
}

/// Event Suppression: what one side asks of the other about events.
#[derive(Clone, Copy, Debug, PartialEq, Eq, Structural)]
pub struct EventSuppress {
    /// Descriptor Ring Change Event Offset: the slot of the ring at which
    /// an event is asked for.
    pub desc_event_off: u16,
    /// Descriptor Ring Change Event Wrap Counter.
    pub desc_event_wrap: bool,
    /// Descriptor Ring Change Event Flags.
    pub desc_event_flags: RingEventFlags,
}

impl EventSuppress {
    /// The size of the structure in bytes.
    pub const SIZE: usize = 4;

    /// The 16 bits that hold the offset and the wrap counter.
    pub open spec fn desc_bits(self) -> u16 {
        ((self.desc_event_off % 0x8000) + (if self.desc_event_wrap { 0x8000int } else { 0 })) as u16
    }

    /// The four bytes of the structure.
    pub open spec fn bytes(self) -> Seq<u8> {
        le_seq(self.desc_bits() as nat, 2) + le_seq(self.desc_event_flags.bits() as nat, 2)
    }

    /// The structure that four bytes of memory hold. Bits of the flags
    /// beyond the two that are defined are dropped.
    pub open spec fn parse(bytes: Seq<u8>) -> EventSuppress
        recommends
            bytes.len() == 4,
    {
        let desc = le_value(bytes.subrange(0, 2));
        let flags = le_value(bytes.subrange(2, 4));
        EventSuppress {
            desc_event_off: (desc % 0x8000) as u16,
            desc_event_wrap: desc >= 0x8000,
            desc_event_flags: RingEventFlags::of_bits((flags % 4) as u8),
        }
    }

    /// A structure that was written to memory is read back unchanged,
    /// where its offset fits its 15 bits.
    pub proof fn lemma_parse_bytes(self)
        requires
            self.desc_event_off < 0x8000,
        ensures
            self.bytes().len() == 4,
            Self::parse(self.bytes()) == self,
    {
        lemma_le_value_of_u16(self.desc_bits());
        lemma_le_value_of_u16(self.desc_event_flags.bits() as u16);
        let all = self.bytes();
        assert(all.subrange(0, 2) =~= le_seq(self.desc_bits() as nat, 2));
        assert(all.subrange(2, 4) =~= le_seq(self.desc_event_flags.bits() as nat, 2));
    }

    /// Reads the structure from the start of `bytes`, or nothing where it
    /// holds fewer than four bytes.
    pub fn from_bytes(bytes: &[u8]) -> (r: Option<EventSuppress>)
        ensures
            bytes@.len() < 4 ==> r is None,
            bytes@.len() >= 4 ==> r == Some(EventSuppress::parse(bytes@.subrange(0, 4))),
    {
        if bytes.len() < 4 {
            return None;
        }
        let ghost head = bytes@.subrange(0, 4);
        assert(head.subrange(0, 2) =~= bytes@.subrange(0, 2));
        assert(head.subrange(2, 4) =~= bytes@.subrange(2, 4));
        let desc = read_u16(bytes, 0);
        let flags = read_u16(bytes, 2);
        Some(
            EventSuppress {
                desc_event_off: desc % 0x8000,
                desc_event_wrap: desc >= 0x8000,
                desc_event_flags: RingEventFlags::from_bits((flags % 4) as u8),
            },
        )
    }

    /// The four bytes of the structure. An offset beyond its 15 bits is
    /// cut to them.
    pub fn to_bytes(&self) -> (r: Vec<u8>)
        ensures
            r@ == self.bytes(),
            r@.len() == 4,
    {
        let mut out: Vec<u8> = Vec::new();
        let wrap: u16 = if self.desc_event_wrap { 0x8000 } else { 0 };
        write_u16(&mut out, self.desc_event_off % 0x8000 + wrap);
        let flags = self.desc_event_flags.into_bits();
        write_u16(&mut out, flags as u16);
        proof {
            lemma_le_seq_len(self.desc_bits() as nat, 2);
            lemma_le_seq_len(self.desc_event_flags.bits() as nat, 2);
            assert(out@ =~= self.bytes());
        }
        out
    }
}

/// The bytes of a descriptor ring: its descriptors, one after the other.
pub open spec fn ring_layout(ring: Seq<Desc>) -> Seq<u8>
    decreases ring.len(),
{
    if ring.len() == 0 {
        Seq::empty()
    } else {
        ring_layout(ring.drop_last()) + ring.last().bytes()
    }
}

/// The bytes of a descriptor ring as they lie in memory.
pub fn ring_bytes(ring: &[Desc]) -> (r: Vec<u8>)
    ensures
        r@ == ring_layout(ring@),
{
    let mut out: Vec<u8> = Vec::new();
    let mut i: usize = 0;
    while i < ring.len()
        invariant
            i <= ring@.len(),
            out@ == ring_layout(ring@.subrange(0, i as int)),
        decreases ring@.len() - i,
    {
        let d = ring[i];
        write_u64(&mut out, d.addr);
        write_u32(&mut out, d.len);
        write_u16(&mut out, d.id);
        write_u16(&mut out, d.flags.bits);
        i = i + 1;
        proof {
            let now = ring@.subrange(0, i as int);
            assert(now.drop_last() =~= ring@.subrange(0, i - 1));
            assert(now.last() == d);
            assert(out@ =~= ring_layout(now.drop_last()) + d.bytes());
        }
    }
    assert(ring@.subrange(0, ring@.len() as int) =~= ring@);
    out
}

} // verus!
