//! Split Virtqueues: the layouts of the descriptor table and the used ring,
//! and descriptor chains.

use vstd::prelude::*;
use crate::error::Error;
use crate::wire::{le_seq, le_value, read_u16, read_u32, read_u64, write_u16, write_u32, write_u64, lemma_le_seq_len, lemma_le_value_of_u16, lemma_le_value_of_u32, lemma_le_value_of_u64, lemma_field_2, lemma_field_4, lemma_field_8};

verus! {

/// The longest descriptor chain that any queue accepts.
pub const MAX_CHAIN: usize = 32768;

/// Virtqueue descriptor flags
///
/// Bits without a name are kept as they are.
#[derive(Clone, Copy, Debug, PartialEq, Eq, Structural)]
pub struct DescF {
    pub bits: u16,
}

impl DescF {
    /// This marks a buffer as continuing via the next field.
    pub const NEXT: u16 = 1;

    /// This marks a buffer as device write-only (otherwise device read-only).
    pub const WRITE: u16 = 2;

    /// This means the buffer contains a list of buffer descriptors.
    pub const INDIRECT: u16 = 4;

    /// Whether the descriptor continues via its next field.
    pub open spec fn has_next(self) -> bool {
        self.bits & 1 != 0
    }

    /// Whether the device writes the buffer.
    pub open spec fn has_write(self) -> bool {
        self.bits & 2 != 0
    }

    /// Whether the buffer holds a table of descriptors.
    pub open spec fn has_indirect(self) -> bool {
        self.bits & 4 != 0
    }

    /// The flags with the three named bits as given and no other bit.
    pub open spec fn of(next: bool, write: bool, indirect: bool) -> DescF {
        DescF {
            bits: ((if next { 1int } else { 0 }) + (if write { 2int } else { 0 }) + (if indirect { 4int } else { 0 })) as u16,
        }
    }

    /// The named bits of built flags are those they were built from.
    pub proof fn lemma_of(next: bool, write: bool, indirect: bool)
        ensures
            Self::of(next, write, indirect).has_next() == next,
            Self::of(next, write, indirect).has_write() == write,
            Self::of(next, write, indirect).has_indirect() == indirect,
    {
        let b = Self::of(next, write, indirect).bits;
        assert(b < 8);
        assert((b & 1 != 0) == (b == 1 || b == 3 || b == 5 || b == 7)) by (bit_vector)
            requires
                b < 8,
        ;
        assert((b & 2 != 0) == (b == 2 || b == 3 || b == 6 || b == 7)) by (bit_vector)
            requires
                b < 8,
        ;
        assert((b & 4 != 0) == (b == 4 || b == 5 || b == 6 || b == 7)) by (bit_vector)
            requires
                b < 8,
        ;
    }

    /// Builds the flags with the three named bits as given.
    pub fn new(next: bool, write: bool, indirect: bool) -> (r: DescF)
        ensures
            r == Self::of(next, write, indirect),
            r.has_next() == next,
            r.has_write() == write,
            r.has_indirect() == indirect,
    {
        proof {
            Self::lemma_of(next, write, indirect);
        }
        let n: u16 = if next { 1 } else { 0 };
        let w: u16 = if write { 2 } else { 0 };
        let i: u16 = if indirect { 4 } else { 0 };
        DescF { bits: n + w + i }
    }

    /// Whether the descriptor continues via its next field.
    pub fn next(self) -> (r: bool)
        ensures
            r == self.has_next(),
    {
        self.bits & 1 != 0
    }

    /// Whether the device writes the buffer.
    pub fn write(self) -> (r: bool)
        ensures
            r == self.has_write(),
    {
        self.bits & 2 != 0
    }

    /// Whether the buffer holds a table of descriptors.
    pub fn indirect(self) -> (r: bool)
        ensures
            r == self.has_indirect(),
    {
        self.bits & 4 != 0
    }
}

/// Split Virtqueue Descriptor
#[derive(Clone, Copy, Debug, PartialEq, Eq, Structural)]
pub struct Desc {
    /// Address (guest-physical).
    pub addr: u64,
    /// Length.
    pub len: u32,
    /// The flags as indicated above.
    pub flags: DescF,
    /// Next field if flags & NEXT
    pub next: u16,
}

impl Desc {
    /// The size of a descriptor in bytes.
    pub const SIZE: usize = 16;

    /// The sixteen bytes of the descriptor.
    pub open spec fn bytes(self) -> Seq<u8> {
        le_seq(self.addr as nat, 8) + le_seq(self.len as nat, 4) + le_seq(
            self.flags.bits as nat,
            2,
        ) + le_seq(self.next as nat, 2)
    }

    /// The descriptor that sixteen bytes of memory hold.
    pub open spec fn parse(bytes: Seq<u8>) -> Desc
        recommends
            bytes.len() == 16,
    {
        Desc {
            addr: le_value(bytes.subrange(0, 8)) as u64,
            len: le_value(bytes.subrange(8, 12)) as u32,
            flags: DescF { bits: le_value(bytes.subrange(12, 14)) as u16 },
            next: le_value(bytes.subrange(14, 16)) as u16,
        }
    }

    /// A descriptor that was written to memory is read back unchanged.
    pub proof fn lemma_parse_bytes(self)
        ensures
            self.bytes().len() == 16,
            Self::parse(self.bytes()) == self,
    {
        lemma_le_value_of_u64(self.addr);
        lemma_le_value_of_u32(self.len);
        lemma_le_value_of_u16(self.flags.bits);
        lemma_le_value_of_u16(self.next);
        let all = self.bytes();
        assert(all.subrange(0, 8) =~= le_seq(self.addr as nat, 8));
        assert(all.subrange(8, 12) =~= le_seq(self.len as nat, 4));
        assert(all.subrange(12, 14) =~= le_seq(self.flags.bits as nat, 2));
        assert(all.subrange(14, 16) =~= le_seq(self.next as nat, 2));
    }

    /// Memory that was read as a descriptor is written back unchanged.
    pub proof fn lemma_bytes_parse(bytes: Seq<u8>)
        requires
            bytes.len() == 16,
        ensures
            Self::parse(bytes).bytes() == bytes,
    {
        lemma_field_8(bytes.subrange(0, 8));
        lemma_field_4(bytes.subrange(8, 12));
        lemma_field_2(bytes.subrange(12, 14));
        lemma_field_2(bytes.subrange(14, 16));
        assert(Self::parse(bytes).bytes() =~= bytes);
    }

    /// Reads a descriptor from the start of `bytes`, or nothing where it
    /// holds fewer than sixteen bytes.
    pub fn from_bytes(bytes: &[u8]) -> (r: Option<Desc>)
        ensures
            bytes@.len() < 16 ==> r is None,
            bytes@.len() >= 16 ==> r == Some(Desc::parse(bytes@.subrange(0, 16))),
    {
        if bytes.len() < 16 {
            return None;
        }
        let ghost head = bytes@.subrange(0, 16);
        assert(head.subrange(0, 8) =~= bytes@.subrange(0, 8));
        assert(head.subrange(8, 12) =~= bytes@.subrange(8, 12));
        assert(head.subrange(12, 14) =~= bytes@.subrange(12, 14));
        assert(head.subrange(14, 16) =~= bytes@.subrange(14, 16));
        Some(
            Desc {
                addr: read_u64(bytes, 0),
                len: read_u32(bytes, 8),
                flags: DescF { bits: read_u16(bytes, 12) },
                next: read_u16(bytes, 14),
            },
        )
    }

    /// The sixteen bytes of the descriptor.
    pub fn to_bytes(&self) -> (r: Vec<u8>)
        ensures
            r@ == self.bytes(),
            r@.len() == 16,
    {
        let mut out: Vec<u8> = Vec::new();
        write_u64(&mut out, self.addr);
        write_u32(&mut out, self.len);
        write_u16(&mut out, self.flags.bits);
        write_u16(&mut out, self.next);
        proof {
            lemma_le_seq_len(self.addr as nat, 8);
            lemma_le_seq_len(self.len as nat, 4);
            lemma_le_seq_len(self.flags.bits as nat, 2);
            lemma_le_seq_len(self.next as nat, 2);
            assert(out@ =~= self.bytes());
        }
        out
    }
}

/// Used Ring Entry
#[derive(Clone, Copy, Debug, PartialEq, Eq, Structural)]
pub struct UsedElem {
    /// Index of start of used descriptor chain.
    pub id: u32,
    /// The number of bytes written into the device writable portion of
    /// the buffer described by the descriptor chain.
    pub len: u32,
}

impl UsedElem {
    /// The size of an entry in bytes.
    pub const SIZE: usize = 8;

    /// The eight bytes of the entry.
    pub open spec fn bytes(self) -> Seq<u8> {
        le_seq(self.id as nat, 4) + le_seq(self.len as nat, 4)
    }

    /// The entry that eight bytes of memory hold.
    pub open spec fn parse(bytes: Seq<u8>) -> UsedElem
        recommends
            bytes.len() == 8,
    {
        UsedElem {
            id: le_value(bytes.subrange(0, 4)) as u32,
            len: le_value(bytes.subrange(4, 8)) as u32,
        }
    }

    /// An entry that was written to memory is read back unchanged.
    pub proof fn lemma_parse_bytes(self)
        ensures
            self.bytes().len() == 8,
            Self::parse(self.bytes()) == self,
    {
        lemma_le_value_of_u32(self.id);
        lemma_le_value_of_u32(self.len);
        let all = self.bytes();
        assert(all.subrange(0, 4) =~= le_seq(self.id as nat, 4));
        assert(all.subrange(4, 8) =~= le_seq(self.len as nat, 4));
    }

    /// Memory that was read as an entry is written back unchanged.
    pub proof fn lemma_bytes_parse(bytes: Seq<u8>)
        requires
            bytes.len() == 8,
        ensures
            Self::parse(bytes).bytes() == bytes,
    {
        lemma_field_4(bytes.subrange(0, 4));
        lemma_field_4(bytes.subrange(4, 8));
        assert(Self::parse(bytes).bytes() =~= bytes);
    }

    /// Reads an entry from the start of `bytes`, or nothing where it holds
    /// fewer than eight bytes.
    pub fn from_bytes(bytes: &[u8]) -> (r: Option<UsedElem>)
        ensures
            bytes@.len() < 8 ==> r is None,
            bytes@.len() >= 8 ==> r == Some(UsedElem::parse(bytes@.subrange(0, 8))),
    {
        if bytes.len() < 8 {
            return None;
        }
        let ghost head = bytes@.subrange(0, 8);
        assert(head.subrange(0, 4) =~= bytes@.subrange(0, 4));
        assert(head.subrange(4, 8) =~= bytes@.subrange(4, 8));
        Some(UsedElem { id: read_u32(bytes, 0), len: read_u32(bytes, 4) })
    }

    /// The eight bytes of the entry.
    pub fn to_bytes(&self) -> (r: Vec<u8>)
        ensures
            r@ == self.bytes(),
            r@.len() == 8,
    {
        let mut out: Vec<u8> = Vec::new();
        write_u32(&mut out, self.id);
        write_u32(&mut out, self.len);
        proof {
            lemma_le_seq_len(self.id as nat, 4);
            lemma_le_seq_len(self.len as nat, 4);
            assert(out@ =~= self.bytes());
        }
        out
    }
}

/// One span of memory of a buffer that a driver hands to a device.
#[derive(Clone, Copy, Debug, PartialEq, Eq, Structural)]
pub struct Buffer {
    /// Address (guest-physical).
    pub addr: u64,
    /// Length.
    pub len: u32,
    /// Whether the device writes the span (otherwise it reads it).
    pub write: bool,
}

/// The descriptor that stands for `buffer` in a chain, followed by the
/// descriptor at `next` where there is one.
pub open spec fn desc_for(buffer: Buffer, next: Option<u16>) -> Desc {
    Desc {
        addr: buffer.addr,
        len: buffer.len,
        flags: DescF::of(next is Some, buffer.write, false),
        next: match next {
            Some(n) => n,
            None => 0,
        },
    }
}

/// The span of memory that a descriptor stands for.
pub open spec fn buffer_of(desc: Desc) -> Buffer {
    Buffer { addr: desc.addr, len: desc.len, write: desc.flags.has_write() }
}

/// The spans of memory that a list of descriptors stands for.
pub open spec fn buffers_of(descs: Seq<Desc>) -> Seq<Buffer> {
    Seq::new(descs.len(), |i: int| buffer_of(descs[i]))
}

/// The chain that starts at slot `at` of `table`, followed through at most
/// `fuel` descriptors; nothing where it leaves the table or does not end
/// within them.
pub open spec fn chain_at(table: Seq<Desc>, at: int, fuel: nat) -> Option<Seq<Desc>>
    decreases fuel,
{
    if fuel == 0 || at < 0 || at >= table.len() {
        None
    } else if !table[at].flags.has_next() {
        Some(seq![table[at]])
    } else {
        match chain_at(table, table[at].next as int, (fuel - 1) as nat) {
            Some(rest) => Some(seq![table[at]] + rest),
            None => None,
        }
    }
}

/// `rest` with `first` before it.
pub open spec fn prepend(first: Seq<Desc>, rest: Option<Seq<Desc>>) -> Option<Seq<Desc>> {
    match rest {
        Some(r) => Some(first + r),
        None => None,
    }
}

/// Whether the slots `slots` of `table` form one chain: each in the table,
/// each but the last continuing to the one after it, and the last ending
/// the chain.
pub open spec fn linked(table: Seq<Desc>, slots: Seq<u16>) -> bool {
    &&& slots.len() >= 1
    &&& forall|i: int| 0 <= i < slots.len() ==> (#[trigger] slots[i] as int) < table.len()
    &&& forall|i: int|
        #![trigger slots[i]]
        0 <= i < slots.len() - 1 ==> table[slots[i] as int].flags.has_next() && table[slots[i] as int].next
            == slots[i + 1]
    &&& !table[slots.last() as int].flags.has_next()
}

/// The descriptors in the slots `slots` of `table`.
pub open spec fn descs_at(table: Seq<Desc>, slots: Seq<u16>) -> Seq<Desc> {
    Seq::new(slots.len(), |i: int| table[slots[i] as int])
}

/// Slots that form one chain are what following the chain from the first
/// of them finds.
pub proof fn lemma_linked_chain(table: Seq<Desc>, slots: Seq<u16>, fuel: nat)
    requires
        linked(table, slots),
        fuel >= slots.len(),
    ensures
        chain_at(table, slots[0] as int, fuel) == Some(descs_at(table, slots)),
    decreases slots.len(),
{
    if slots.len() == 1 {
        assert(slots.last() == slots[0]);
        assert(descs_at(table, slots) =~= seq![table[slots[0] as int]]);
    } else {
        let rest = slots.drop_first();
        assert(slots[0] as int >= 0);
        assert(table[slots[0] as int].next == slots[1]);
        assert(linked(table, rest)) by {
            assert forall|i: int| 0 <= i < rest.len() implies (#[trigger] rest[i] as int)
                < table.len() by {
                assert(rest[i] == slots[i + 1]);
            }
            assert forall|i: int|
                #![trigger rest[i]]
                0 <= i < rest.len() - 1 implies table[rest[i] as int].flags.has_next()
                && table[rest[i] as int].next == rest[i + 1] by {
                assert(rest[i] == slots[i + 1]);
                assert(rest[i + 1] == slots[i + 2]);
            }
            assert(rest.last() == slots.last());
        }
        lemma_linked_chain(table, rest, (fuel - 1) as nat);
        assert(rest[0] == slots[1]);
        assert(seq![table[slots[0] as int]] + descs_at(table, rest) =~= descs_at(table, slots)) by {
            assert forall|i: int| 1 <= i < slots.len() implies descs_at(table, rest)[i - 1]
                == descs_at(table, slots)[i] by {
                assert(rest[i - 1] == slots[i]);
            }
        }
    }
}

/// The spans of memory of a side table of descriptors: those of the chain
/// from its first descriptor; nothing where that chain is broken, or where
/// any descriptor of the table, in the chain or not, is marked indirect in
/// turn.
pub open spec fn indirect_chain(side: Seq<Desc>) -> Option<Seq<Buffer>> {
    if exists|i: int| 0 <= i < side.len() && (#[trigger] side[i]).flags.has_indirect() {
        None
    } else {
        match chain_at(side, 0, side.len()) {
            Some(chain) => Some(buffers_of(chain)),
            None => None,
        }
    }
}

/// The side table that a driver builds for `chain`: one descriptor for each
/// span, each continuing to the one after it.
pub open spec fn side_table(chain: Seq<Buffer>) -> Seq<Desc> {
    Seq::new(
        chain.len(),
        |i: int| desc_for(chain[i], if i + 1 < chain.len() { Some((i + 1) as u16) } else { None }),
    )
}

/// A side table built for a chain is read back as that chain.
pub proof fn lemma_side_table(chain: Seq<Buffer>)
    requires
        1 <= chain.len() <= MAX_CHAIN,
    ensures
        indirect_chain(side_table(chain)) == Some(chain),
{
    let table = side_table(chain);
    let slots = Seq::new(chain.len(), |i: int| i as u16);
    assert forall|i: int| 0 <= i < table.len() implies (#[trigger] table[i]).flags.has_next() == (i
        + 1 < chain.len()) && !table[i].flags.has_indirect() && buffer_of(table[i]) == chain[i] by {
        DescF::lemma_of(i + 1 < chain.len(), chain[i].write, false);
    }
    assert(linked(table, slots)) by {
        assert forall|i: int|
            #![trigger slots[i]]
            0 <= i < slots.len() - 1 implies table[slots[i] as int].flags.has_next()
            && table[slots[i] as int].next == slots[i + 1] by {
            assert(table[i].flags.has_next());
        }
        assert(!table[slots.last() as int].flags.has_next()) by {
            assert(!table[chain.len() - 1].flags.has_next());
        }
    }
    lemma_linked_chain(table, slots, table.len());
    assert(descs_at(table, slots) =~= table);
    assert(buffers_of(table) =~= chain);
    assert(!exists|i: int| 0 <= i < table.len() && (#[trigger] table[i]).flags.has_indirect());
}

/// Follows the chain that starts at slot `head` of `table`.
///
/// Fails with `MalformedChain` where the chain leaves the table or is longer
/// than the table, as a chain that runs in a circle is.
pub fn read_chain(table: &[Desc], head: u16) -> (r: Result<Vec<Desc>, Error>)
    ensures
        match chain_at(table@, head as int, table@.len()) {
            Some(chain) => r is Ok && r->Ok_0@ == chain,
            None => r is Err && r->Err_0 == Error::MalformedChain,
        },
{
    let mut out: Vec<Desc> = Vec::new();
    let mut at: usize = head as usize;
    let mut fuel: usize = table.len();
    loop
        invariant
            fuel <= table@.len(),
            chain_at(table@, head as int, table@.len()) == prepend(
                out@,
                chain_at(table@, at as int, fuel as nat),
            ),
        decreases fuel,
    {
        if fuel == 0 || at >= table.len() {
            return Err(Error::MalformedChain);
        }
        let d = table[at];
        let ghost before = out@;
        out.push(d);
        if !d.flags.next() {
            assert(before + seq![d] =~= out@);
            return Ok(out);
        }
        proof {
            let rest = chain_at(table@, d.next as int, (fuel - 1) as nat);
            if rest is Some {
                assert(before + (seq![d] + rest->0) =~= out@ + rest->0);
            }
        }
        at = d.next as usize;
        fuel = fuel - 1;
    }
}

/// Reads the side table of an indirect descriptor as the chain it stands
/// for.
///
/// Fails with `MalformedChain` where a descriptor of the table is marked
/// indirect in turn, whether the chain reaches it or not, or where the chain
/// from the first descriptor of the table is broken.
pub fn read_indirect(side: &[Desc]) -> (r: Result<Vec<Buffer>, Error>)
    ensures
        match indirect_chain(side@) {
            Some(chain) => r is Ok && r->Ok_0@ == chain,
            None => r is Err && r->Err_0 == Error::MalformedChain,
        },
{
    let mut k: usize = 0;
    while k < side.len()
        invariant
            k <= side@.len(),
            forall|j: int| 0 <= j < k ==> !(#[trigger] side@[j]).flags.has_indirect(),
        decreases side@.len() - k,
    {
        if side[k].flags.indirect() {
            return Err(Error::MalformedChain);
        }
        k = k + 1;
    }
    match read_chain(side, 0) {
        Err(e) => Err(e),
        Ok(chain) => {
            let mut out: Vec<Buffer> = Vec::new();
            let mut i: usize = 0;
            while i < chain.len()
                invariant
                    i <= chain@.len(),
                    out@.len() == i,
                    forall|j: int| 0 <= j < i ==> out@[j] == buffer_of(chain@[j]),
                decreases chain@.len() - i,
            {
                let d = chain[i];
                out.push(Buffer { addr: d.addr, len: d.len, write: d.flags.write() });
                i = i + 1;
            }
            assert(out@ =~= buffers_of(chain@));
            Ok(out)
        },
    }
}

/// Builds the side table for `chain`.
///
/// Fails with `MalformedChain` where the chain is empty or longer than
/// `MAX_CHAIN`.
pub fn build_indirect_table(chain: &[Buffer]) -> (r: Result<Vec<Desc>, Error>)
    ensures
        1 <= chain@.len() <= MAX_CHAIN ==> r is Ok && r->Ok_0@ == side_table(chain@)
            && indirect_chain(r->Ok_0@) == Some(chain@),
        !(1 <= chain@.len() <= MAX_CHAIN) ==> r is Err && r->Err_0 == Error::MalformedChain,
{
    let n = chain.len();
    if n == 0 || n > MAX_CHAIN {
        return Err(Error::MalformedChain);
    }
    let mut out: Vec<Desc> = Vec::new();
    let mut i: usize = 0;
    while i < n
        invariant
            n == chain@.len(),
            1 <= n <= MAX_CHAIN,
            i <= n,
            out@.len() == i,
            forall|j: int| 0 <= j < i ==> out@[j] == side_table(chain@)[j],
        decreases n - i,
    {
        let b = chain[i];
        let last = i + 1 == n;
        let next: u16 = if last { 0 } else { (i + 1) as u16 };
        out.push(Desc { addr: b.addr, len: b.len, flags: DescF::new(!last, b.write, false), next });
        i = i + 1;
    }
    proof {
        assert(out@ =~= side_table(chain@));
        lemma_side_table(chain@);
    }
    Ok(out)
}

/// A chain that was followed to its end holds a descriptor.
pub proof fn lemma_chain_nonempty(table: Seq<Desc>, at: int, fuel: nat)
    requires
        chain_at(table, at, fuel) is Some,
    ensures
        chain_at(table, at, fuel)->0.len() >= 1,
        chain_at(table, at, fuel)->0[0] == table[at],
    decreases fuel,
{
    if fuel > 0 && 0 <= at < table.len() && table[at].flags.has_next() {
        lemma_chain_nonempty(table, table[at].next as int, (fuel - 1) as nat);
    }
}

/// The spans of memory that a device finds for the head `head`: those of
/// the chain from `head` through `table`, or those of the side table `side`
/// where the descriptor in `head` is marked indirect; nothing where the
/// chain that it has to follow is broken.
pub open spec fn resolve(table: Seq<Desc>, side: Seq<Desc>, head: int) -> Option<Seq<Buffer>> {
    match chain_at(table, head, table.len()) {
        Some(chain) => if table[head].flags.has_indirect() {
            indirect_chain(side)
        } else {
            Some(buffers_of(chain))
        },
        None => None,
    }
}

/// Reads the spans of memory of the chain of the head `head`, as a device
/// does: from the descriptor table `table`, or from the side table `side`
/// where the descriptor in `head` is marked indirect.
///
/// Fails with `MalformedChain` where the chain through the table is broken,
/// or where the side table holds no chain.
pub fn resolve_chain(table: &[Desc], side: &[Desc], head: u16) -> (r: Result<Vec<Buffer>, Error>)
    ensures
        match resolve(table@, side@, head as int) {
            Some(chain) => r is Ok && r->Ok_0@ == chain,
            None => r is Err && r->Err_0 == Error::MalformedChain,
        },
{
    match read_chain(table, head) {
        Err(e) => Err(e),
        Ok(descs) => {
            proof {
                lemma_chain_nonempty(table@, head as int, table@.len());
            }
            if descs[0].flags.indirect() {
                read_indirect(side)
            } else {
                let mut out: Vec<Buffer> = Vec::new();
                let mut i: usize = 0;
                while i < descs.len()
                    invariant
                        i <= descs@.len(),
                        out@.len() == i,
                        forall|j: int| 0 <= j < i ==> #[trigger] out@[j] == buffer_of(descs@[j]),
                    decreases descs@.len() - i,
                {
                    let d = descs[i];
                    out.push(Buffer { addr: d.addr, len: d.len, write: d.flags.write() });
                    i = i + 1;
                }
                assert(out@ =~= buffers_of(descs@));
                Ok(out)
            }
        },
    }
}

/// The bytes of the entries of an available ring, one after the other.
pub open spec fn heads_layout(ring: Seq<u16>) -> Seq<u8>
    decreases ring.len(),
{
    if ring.len() == 0 {
        Seq::empty()
    } else {
        heads_layout(ring.drop_last()) + le_seq(ring.last() as nat, 2)
    }
}

/// The bytes of the entries of a used ring, one after the other.
pub open spec fn elems_layout(ring: Seq<UsedElem>) -> Seq<u8>
    decreases ring.len(),
{
    if ring.len() == 0 {
        Seq::empty()
    } else {
        elems_layout(ring.drop_last()) + ring.last().bytes()
    }
}

/// The bytes of a descriptor table: its descriptors, one after the other.
pub open spec fn table_layout(table: Seq<Desc>) -> Seq<u8>
    decreases table.len(),
{
    if table.len() == 0 {
        Seq::empty()
    } else {
        table_layout(table.drop_last()) + table.last().bytes()
    }
}

/// The bytes of an available ring: the flags, the index, the entries, and
/// the index of the used ring at which the driver asks for an interrupt.
pub open spec fn avail_layout(flags: u16, idx: u16, ring: Seq<u16>, used_event: u16) -> Seq<u8> {
    le_seq(flags as nat, 2) + le_seq(idx as nat, 2) + heads_layout(ring) + le_seq(
        used_event as nat,
        2,
    )
}

/// The bytes of a used ring: the flags, the index, the entries, and the
/// index of the available ring at which the device asks for a notification.
pub open spec fn used_layout(flags: u16, idx: u16, ring: Seq<UsedElem>, avail_event: u16) -> Seq<
    u8,
> {
    le_seq(flags as nat, 2) + le_seq(idx as nat, 2) + elems_layout(ring) + le_seq(
        avail_event as nat,
        2,
    )
}

/// The bytes of a descriptor table as they lie in memory.
pub fn table_bytes(table: &[Desc]) -> (r: Vec<u8>)
    ensures
        r@ == table_layout(table@),
{
    let mut out: Vec<u8> = Vec::new();
    let mut i: usize = 0;
    while i < table.len()
        invariant
            i <= table@.len(),
            out@ == table_layout(table@.subrange(0, i as int)),
        decreases table@.len() - i,
    {
        let d = table[i];
        write_u64(&mut out, d.addr);
        write_u32(&mut out, d.len);
        write_u16(&mut out, d.flags.bits);
        write_u16(&mut out, d.next);
        i = i + 1;
        proof {
            let now = table@.subrange(0, i as int);
            assert(now.drop_last() =~= table@.subrange(0, i - 1));
            assert(now.last() == d);
            assert(out@ =~= table_layout(now.drop_last()) + d.bytes());
        }
    }
    assert(table@.subrange(0, table@.len() as int) =~= table@);
    out
}

/// The bytes of an available ring as they lie in memory.
pub fn avail_bytes(flags: u16, idx: u16, ring: &[u16], used_event: u16) -> (r: Vec<u8>)
    ensures
        r@ == avail_layout(flags, idx, ring@, used_event),
{
    let mut out: Vec<u8> = Vec::new();
    write_u16(&mut out, flags);
    write_u16(&mut out, idx);
    let ghost head = out@;
    let mut i: usize = 0;
    while i < ring.len()
        invariant
            i <= ring@.len(),
            out@ == head + heads_layout(ring@.subrange(0, i as int)),
        decreases ring@.len() - i,
    {
        write_u16(&mut out, ring[i]);
        i = i + 1;
        proof {
            let now = ring@.subrange(0, i as int);
            assert(now.drop_last() =~= ring@.subrange(0, i - 1));
            assert(now.last() == ring@[i - 1]);
            assert(out@ =~= head + (heads_layout(now.drop_last()) + le_seq(now.last() as nat, 2)));
        }
    }
    assert(ring@.subrange(0, ring@.len() as int) =~= ring@);
    write_u16(&mut out, used_event);
    assert(out@ =~= avail_layout(flags, idx, ring@, used_event));
    out
}

/// The bytes of a used ring as they lie in memory.
pub fn used_bytes(flags: u16, idx: u16, ring: &[UsedElem], avail_event: u16) -> (r: Vec<u8>)
    ensures
        r@ == used_layout(flags, idx, ring@, avail_event),
{
    let mut out: Vec<u8> = Vec::new();
    write_u16(&mut out, flags);
    write_u16(&mut out, idx);
    let ghost head = out@;
    let mut i: usize = 0;
    while i < ring.len()
        invariant
            i <= ring@.len(),
            out@ == head + elems_layout(ring@.subrange(0, i as int)),
        decreases ring@.len() - i,
    {
        let e = ring[i];
        write_u32(&mut out, e.id);
        write_u32(&mut out, e.len);
        i = i + 1;
        proof {
            let now = ring@.subrange(0, i as int);
            assert(now.drop_last() =~= ring@.subrange(0, i - 1));
            assert(now.last() == e);
            assert(out@ =~= head + (elems_layout(now.drop_last()) + e.bytes()));
        }
    }
    assert(ring@.subrange(0, ring@.len() as int) =~= ring@);
    write_u16(&mut out, avail_event);
    assert(out@ =~= used_layout(flags, idx, ring@, avail_event));
    out
}

} // verus!
