//! Traditional Memory Balloon Device

use vstd::prelude::*;
use crate::wire::{le_seq, le_value, read_u32, store_u32, write_u32, lemma_le_seq_len, lemma_le_value_of_u32, lemma_field_4};

verus! {

/// Traditional Memory Balloon Device Configuration Layout
///
/// Four 32-bit fields. The device writes `num_pages` and
/// `free_page_hint_cmd_id`; the driver may also write `actual` and
/// `poison_val`.
#[derive(Clone, Copy, Debug, PartialEq, Eq, Structural)]
pub struct Config {
    num_pages: u32,
    actual: u32,
    free_page_hint_cmd_id: u32,
    poison_val: u32,
}

/// The fields of a [`Config`] as plain numbers.
pub struct ConfigView {
    pub num_pages: u32,
    pub actual: u32,
    pub free_page_hint_cmd_id: u32,
    pub poison_val: u32,
}

impl ConfigView {
    /// The sixteen bytes of the layout.
    pub open spec fn bytes(self) -> Seq<u8> {
        le_seq(self.num_pages as nat, 4) + le_seq(self.actual as nat, 4) + le_seq(
            self.free_page_hint_cmd_id as nat,
            4,
        ) + le_seq(self.poison_val as nat, 4)
    }

    /// The fields that sixteen bytes of memory hold.
    pub open spec fn parse(bytes: Seq<u8>) -> ConfigView
        recommends
            bytes.len() == 16,
    {
        ConfigView {
            num_pages: le_value(bytes.subrange(0, 4)) as u32,
            actual: le_value(bytes.subrange(4, 8)) as u32,
            free_page_hint_cmd_id: le_value(bytes.subrange(8, 12)) as u32,
            poison_val: le_value(bytes.subrange(12, 16)) as u32,
        }
    }

    /// Fields that were written to memory are read back unchanged.
    pub proof fn lemma_parse_bytes(self)
        ensures
            self.bytes().len() == 16,
            Self::parse(self.bytes()) == self,
    {
        let a = le_seq(self.num_pages as nat, 4);
        let b = le_seq(self.actual as nat, 4);
        let c = le_seq(self.free_page_hint_cmd_id as nat, 4);
        let d = le_seq(self.poison_val as nat, 4);
        lemma_le_value_of_u32(self.num_pages);
        lemma_le_value_of_u32(self.actual);
        lemma_le_value_of_u32(self.free_page_hint_cmd_id);
        lemma_le_value_of_u32(self.poison_val);
        let all = self.bytes();
        assert(all.subrange(0, 4) =~= a);
        assert(all.subrange(4, 8) =~= b);
        assert(all.subrange(8, 12) =~= c);
        assert(all.subrange(12, 16) =~= d);
    }

    /// Memory that was read as fields is written back unchanged.
    pub proof fn lemma_bytes_parse(bytes: Seq<u8>)
        requires
            bytes.len() == 16,
        ensures
            Self::parse(bytes).bytes() == bytes,
    {
        lemma_field_4(bytes.subrange(0, 4));
        lemma_field_4(bytes.subrange(4, 8));
        lemma_field_4(bytes.subrange(8, 12));
        lemma_field_4(bytes.subrange(12, 16));
        assert(Self::parse(bytes).bytes() =~= bytes);
    }
}

impl Config {
    /// The size of the layout in bytes.
    pub const SIZE: usize = 16;

    /// The fields of the layout.
    pub closed spec fn view(self) -> ConfigView {
        ConfigView {
            num_pages: self.num_pages,
            actual: self.actual,
            free_page_hint_cmd_id: self.free_page_hint_cmd_id,
            poison_val: self.poison_val,
        }
    }

    /// Reads the layout from the start of `bytes`, or nothing where it holds
    /// fewer than sixteen bytes.
    pub fn from_bytes(bytes: &[u8]) -> (r: Option<Config>)
        ensures
            bytes@.len() < 16 ==> r is None,
            bytes@.len() >= 16 ==> r is Some && r->0@ == ConfigView::parse(bytes@.subrange(0, 16)),
    {
        if bytes.len() < 16 {
            return None;
        }
        let ghost head = bytes@.subrange(0, 16);
        assert(head.subrange(0, 4) =~= bytes@.subrange(0, 4));
        assert(head.subrange(4, 8) =~= bytes@.subrange(4, 8));
        assert(head.subrange(8, 12) =~= bytes@.subrange(8, 12));
        assert(head.subrange(12, 16) =~= bytes@.subrange(12, 16));
        Some(
            Config {
                num_pages: read_u32(bytes, 0),
                actual: read_u32(bytes, 4),
                free_page_hint_cmd_id: read_u32(bytes, 8),
                poison_val: read_u32(bytes, 12),
            },
        )
    }

    /// The sixteen bytes of the layout.
    pub fn to_bytes(&self) -> (r: Vec<u8>)
        ensures
            r@ == self@.bytes(),
            r@.len() == 16,
    {
        let mut out: Vec<u8> = Vec::new();
        write_u32(&mut out, self.num_pages);
        write_u32(&mut out, self.actual);
        write_u32(&mut out, self.free_page_hint_cmd_id);
        write_u32(&mut out, self.poison_val);
        proof {
            lemma_le_seq_len(self.num_pages as nat, 4);
            lemma_le_seq_len(self.actual as nat, 4);
            lemma_le_seq_len(self.free_page_hint_cmd_id as nat, 4);
            lemma_le_seq_len(self.poison_val as nat, 4);
            assert(out@ =~= self@.bytes());
        }
        out
    }

    /// The number of pages that the host wants the guest to give up.
    pub fn num_pages(&self) -> (r: u32)
        ensures
            r == self@.num_pages,
    {
        self.num_pages
    }

    /// The number of pages that the guest has given up.
    pub fn actual(&self) -> (r: u32)
        ensures
            r == self@.actual,
    {
        self.actual
    }

    /// The command ID of the free page hinting.
    pub fn free_page_hint_cmd_id(&self) -> (r: u32)
        ensures
            r == self@.free_page_hint_cmd_id,
    {
        self.free_page_hint_cmd_id
    }

    /// The pattern that the guest fills freed pages with.
    pub fn poison_val(&self) -> (r: u32)
        ensures
            r == self@.poison_val,
    {
        self.poison_val
    }

    /// Sets the number of pages that the guest has given up.
    pub fn set_actual(&mut self, actual: u32)
        ensures
            final(self)@ == (ConfigView { actual, ..old(self)@ }),
    {
        self.actual = actual;
    }

    /// Sets the pattern that the guest fills freed pages with.
    pub fn set_poison_val(&mut self, poison_val: u32)
        ensures
            final(self)@ == (ConfigView { poison_val, ..old(self)@ }),
    {
        self.poison_val = poison_val;
    }
}

/// A balloon device configuration as it lies in memory that something else
/// owns: the length is checked once, and the fields are read and written in
/// place.
pub struct ConfigMut<'a> {
    bytes: &'a mut [u8],
}

impl<'a> ConfigMut<'a> {
    /// What every operation keeps: the memory holds the sixteen bytes of
    /// the layout.
    pub closed spec fn wf(self) -> bool {
        self.bytes@.len() >= 16
    }

    /// The memory that the layout lies in.
    pub closed spec fn memory(self) -> Seq<u8> {
        self.bytes@
    }

    /// The fields that the first sixteen bytes of the memory hold.
    pub open spec fn view(self) -> ConfigView {
        ConfigView::parse(self.memory().subrange(0, 16))
    }

    /// Lays the configuration over `bytes`, or nothing where they are
    /// fewer than sixteen.
    pub fn new(bytes: &'a mut [u8]) -> (r: Option<ConfigMut<'a>>)
        ensures
            old(bytes)@.len() >= 16 <==> r is Some,
            r matches Some(c) ==> c.wf() && c.memory() == old(bytes)@,
    {
        if bytes.len() < 16 {
            None
        } else {
            Some(ConfigMut { bytes })
        }
    }

    /// The number of pages that the host wants the guest to give up.
    pub fn num_pages(&self) -> (r: u32)
        requires
            self.wf(),
        ensures
            r == self@.num_pages,
    {
        proof {
            assert(self.bytes@.subrange(0, 16).subrange(0, 4) =~= self.bytes@.subrange(0, 4));
        }
        read_u32(self.bytes, 0)
    }

    /// The number of pages that the guest has given up.
    pub fn actual(&self) -> (r: u32)
        requires
            self.wf(),
        ensures
            r == self@.actual,
    {
        proof {
            assert(self.bytes@.subrange(0, 16).subrange(4, 8) =~= self.bytes@.subrange(4, 8));
        }
        read_u32(self.bytes, 4)
    }

    /// The command ID of the free page hinting.
    pub fn free_page_hint_cmd_id(&self) -> (r: u32)
        requires
            self.wf(),
        ensures
            r == self@.free_page_hint_cmd_id,
    {
        proof {
            assert(self.bytes@.subrange(0, 16).subrange(8, 12) =~= self.bytes@.subrange(8, 12));
        }
        read_u32(self.bytes, 8)
    }

    /// The pattern that the guest fills freed pages with.
    pub fn poison_val(&self) -> (r: u32)
        requires
            self.wf(),
        ensures
            r == self@.poison_val,
    {
        proof {
            assert(self.bytes@.subrange(0, 16).subrange(12, 16) =~= self.bytes@.subrange(12, 16));
        }
        read_u32(self.bytes, 12)
    }

    /// Writes the pattern that the guest fills freed pages with, and leaves
    /// every other byte of the memory as it is.
    pub fn set_poison_val(&mut self, poison_val: u32)
        requires
            old(self).wf(),
        ensures
            final(self).wf(),
            final(self).memory() == old(self).memory().subrange(0, 12) + le_seq(
                poison_val as nat,
                4,
            ) + old(self).memory().subrange(16, old(self).memory().len() as int),
            final(self)@ == (ConfigView { poison_val, ..old(self)@ }),
    {
        store_u32(self.bytes, 12, poison_val);
        proof {
            let m0 = old(self).memory();
            let m1 = self.memory();
            lemma_le_value_of_u32(poison_val);
            assert(m1.subrange(0, 16).subrange(0, 4) =~= m0.subrange(0, 16).subrange(0, 4));
            assert(m1.subrange(0, 16).subrange(4, 8) =~= m0.subrange(0, 16).subrange(4, 8));
            assert(m1.subrange(0, 16).subrange(8, 12) =~= m0.subrange(0, 16).subrange(8, 12));
            assert(m1.subrange(0, 16).subrange(12, 16) =~= le_seq(poison_val as nat, 4));
        }
    }

    /// Writes the number of pages that the guest has given up, and leaves
    /// every other byte of the memory as it is.
    pub fn set_actual(&mut self, actual: u32)
        requires
            old(self).wf(),
        ensures
            final(self).wf(),
            final(self).memory() == old(self).memory().subrange(0, 4) + le_seq(actual as nat, 4)
                + old(self).memory().subrange(8, old(self).memory().len() as int),
            final(self)@ == (ConfigView { actual, ..old(self)@ }),
    {
        store_u32(self.bytes, 4, actual);
        proof {
            let m0 = old(self).memory();
            let m1 = self.memory();
            lemma_le_value_of_u32(actual);
            assert(m1.subrange(0, 16).subrange(0, 4) =~= m0.subrange(0, 16).subrange(0, 4));
            assert(m1.subrange(0, 16).subrange(4, 8) =~= le_seq(actual as nat, 4));
            assert(m1.subrange(0, 16).subrange(8, 12) =~= m0.subrange(0, 16).subrange(8, 12));
            assert(m1.subrange(0, 16).subrange(12, 16) =~= m0.subrange(0, 16).subrange(12, 16));
        }
    }
}

} // verus!
