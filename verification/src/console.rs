//! Console Device

use vstd::prelude::*;
use crate::wire::{le_seq, le_value, read_u16, read_u32, write_u16, write_u32, lemma_le_seq_len, lemma_le_value_of_u16, lemma_le_value_of_u32, lemma_field_2, lemma_field_4};

verus! {

/// Console Device Configuration Layout
///
/// The device writes every field; the driver only reads them.
#[derive(Clone, Copy, Debug, PartialEq, Eq, Structural)]
pub struct Config {
    cols: u16,
    rows: u16,
    max_nr_ports: u32,
    emerg_wr: u32,
}

/// The fields of a [`Config`] as plain numbers.
pub struct ConfigView {
    pub cols: u16,
    pub rows: u16,
    pub max_nr_ports: u32,
    pub emerg_wr: u32,
}

impl ConfigView {
    /// The twelve bytes of the layout.
    pub open spec fn bytes(self) -> Seq<u8> {
        le_seq(self.cols as nat, 2) + le_seq(self.rows as nat, 2) + le_seq(
            self.max_nr_ports as nat,
            4,
        ) + le_seq(self.emerg_wr as nat, 4)
    }

    /// The fields that twelve bytes of memory hold.
    pub open spec fn parse(bytes: Seq<u8>) -> ConfigView
        recommends
            bytes.len() == 12,
    {
        ConfigView {
            cols: le_value(bytes.subrange(0, 2)) as u16,
            rows: le_value(bytes.subrange(2, 4)) as u16,
            max_nr_ports: le_value(bytes.subrange(4, 8)) as u32,
            emerg_wr: le_value(bytes.subrange(8, 12)) as u32,
        }
    }

    /// Fields that were written to memory are read back unchanged.
    pub proof fn lemma_parse_bytes(self)
        ensures
            self.bytes().len() == 12,
            Self::parse(self.bytes()) == self,
    {
        lemma_le_value_of_u16(self.cols);
        lemma_le_value_of_u16(self.rows);
        lemma_le_value_of_u32(self.max_nr_ports);
        lemma_le_value_of_u32(self.emerg_wr);
        let all = self.bytes();
        assert(all.subrange(0, 2) =~= le_seq(self.cols as nat, 2));
        assert(all.subrange(2, 4) =~= le_seq(self.rows as nat, 2));
        assert(all.subrange(4, 8) =~= le_seq(self.max_nr_ports as nat, 4));
        assert(all.subrange(8, 12) =~= le_seq(self.emerg_wr as nat, 4));
    }

    /// Memory that was read as fields is written back unchanged.
    pub proof fn lemma_bytes_parse(bytes: Seq<u8>)
        requires
            bytes.len() == 12,
        ensures
            Self::parse(bytes).bytes() == bytes,
    {
        lemma_field_2(bytes.subrange(0, 2));
        lemma_field_2(bytes.subrange(2, 4));
        lemma_field_4(bytes.subrange(4, 8));
        lemma_field_4(bytes.subrange(8, 12));
        assert(Self::parse(bytes).bytes() =~= bytes);
    }
}

impl Config {
    /// The size of the layout in bytes.
    pub const SIZE: usize = 12;

    /// The fields of the layout.
    pub closed spec fn view(self) -> ConfigView {
        ConfigView {
            cols: self.cols,
            rows: self.rows,
            max_nr_ports: self.max_nr_ports,
            emerg_wr: self.emerg_wr,
        }
    }

    /// Reads the layout from the start of `bytes`, or nothing where it holds
    /// fewer than twelve bytes.
    pub fn from_bytes(bytes: &[u8]) -> (r: Option<Config>)
        ensures
            bytes@.len() < 12 ==> r is None,
            bytes@.len() >= 12 ==> r is Some && r->0@ == ConfigView::parse(bytes@.subrange(0, 12)),
    {
        if bytes.len() < 12 {
            return None;
        }
        let ghost head = bytes@.subrange(0, 12);
        assert(head.subrange(0, 2) =~= bytes@.subrange(0, 2));
        assert(head.subrange(2, 4) =~= bytes@.subrange(2, 4));
        assert(head.subrange(4, 8) =~= bytes@.subrange(4, 8));
        assert(head.subrange(8, 12) =~= bytes@.subrange(8, 12));
        Some(
            Config {
                cols: read_u16(bytes, 0),
                rows: read_u16(bytes, 2),
                max_nr_ports: read_u32(bytes, 4),
                emerg_wr: read_u32(bytes, 8),
            },
        )
    }

    /// The twelve bytes of the layout.
    pub fn to_bytes(&self) -> (r: Vec<u8>)
        ensures
            r@ == self@.bytes(),
            r@.len() == 12,
    {
        let mut out: Vec<u8> = Vec::new();
        write_u16(&mut out, self.cols);
        write_u16(&mut out, self.rows);
        write_u32(&mut out, self.max_nr_ports);
        write_u32(&mut out, self.emerg_wr);
        proof {
            lemma_le_seq_len(self.cols as nat, 2);
            lemma_le_seq_len(self.rows as nat, 2);
            lemma_le_seq_len(self.max_nr_ports as nat, 4);
            lemma_le_seq_len(self.emerg_wr as nat, 4);
            assert(out@ =~= self@.bytes());
        }
        out
    }

    /// The width of the console in characters.
    pub fn cols(&self) -> (r: u16)
        ensures
            r == self@.cols,
    {
        self.cols
    }

    /// The height of the console in characters.
    pub fn rows(&self) -> (r: u16)
        ensures
            r == self@.rows,
    {
        self.rows
    }

    /// The highest number of ports that the device supports.
    pub fn max_nr_ports(&self) -> (r: u32)
        ensures
            r == self@.max_nr_ports,
    {
        self.max_nr_ports
    }

    /// The register for emergency writes.
    pub fn emerg_wr(&self) -> (r: u32)
        ensures
            r == self@.emerg_wr,
    {
        self.emerg_wr
    }
}

/// A console device configuration as it lies in memory that something else
/// owns: the length is checked once, and the fields are read in place.
pub struct ConfigRef<'a> {
    bytes: &'a [u8],
}

impl<'a> ConfigRef<'a> {
    #[verifier::type_invariant]
    spec fn long_enough(self) -> bool {
        self.bytes@.len() >= 12
    }

    /// The memory that the layout lies in.
    pub closed spec fn memory(self) -> Seq<u8> {
        self.bytes@
    }

    /// The fields that the first twelve bytes of the memory hold.
    pub open spec fn view(self) -> ConfigView {
        ConfigView::parse(self.memory().subrange(0, 12))
    }

    /// Lays the configuration over `bytes`, or nothing where they are
    /// fewer than twelve.
    pub fn new(bytes: &'a [u8]) -> (r: Option<ConfigRef<'a>>)
        ensures
            bytes@.len() >= 12 <==> r is Some,
            r matches Some(c) ==> c.memory() == bytes@,
    {
        if bytes.len() < 12 {
            None
        } else {
            Some(ConfigRef { bytes })
        }
    }

    /// The width of the console in characters.
    pub fn cols(&self) -> (r: u16)
        ensures
            r == self@.cols,
    {
        proof {
            use_type_invariant(self);
            assert(self.bytes@.subrange(0, 12).subrange(0, 2) =~= self.bytes@.subrange(0, 2));
        }
        read_u16(self.bytes, 0)
    }

    /// The height of the console in characters.
    pub fn rows(&self) -> (r: u16)
        ensures
            r == self@.rows,
    {
        proof {
            use_type_invariant(self);
            assert(self.bytes@.subrange(0, 12).subrange(2, 4) =~= self.bytes@.subrange(2, 4));
        }
        read_u16(self.bytes, 2)
    }

    /// The highest number of ports that the device supports.
    pub fn max_nr_ports(&self) -> (r: u32)
        ensures
            r == self@.max_nr_ports,
    {
        proof {
            use_type_invariant(self);
            assert(self.bytes@.subrange(0, 12).subrange(4, 8) =~= self.bytes@.subrange(4, 8));
        }
        read_u32(self.bytes, 4)
    }

    /// The register for emergency writes.
    pub fn emerg_wr(&self) -> (r: u32)
        ensures
            r == self@.emerg_wr,
    {
        proof {
            use_type_invariant(self);
            assert(self.bytes@.subrange(0, 12).subrange(8, 12) =~= self.bytes@.subrange(8, 12));
        }
        read_u32(self.bytes, 8)
    }
}

/// Control Message
#[derive(Clone, Copy, Debug, PartialEq, Eq, Structural)]
pub struct Control {
    /// Port number
    pub id: u32,
    /// The kind of control event
    pub event: u16,
    /// Extra information for the event
    pub value: u16,
}

impl Control {
    /// The size of the message in bytes.
    pub const SIZE: usize = 8;

    /// The eight bytes of the message.
    pub open spec fn bytes(self) -> Seq<u8> {
        le_seq(self.id as nat, 4) + le_seq(self.event as nat, 2) + le_seq(self.value as nat, 2)
    }

    /// The message that eight bytes of memory hold.
    pub open spec fn parse(bytes: Seq<u8>) -> Control
        recommends
            bytes.len() == 8,
    {
        Control {
            id: le_value(bytes.subrange(0, 4)) as u32,
            event: le_value(bytes.subrange(4, 6)) as u16,
            value: le_value(bytes.subrange(6, 8)) as u16,
        }
    }

    /// A message that was written to memory is read back unchanged.
    pub proof fn lemma_parse_bytes(self)
        ensures
            self.bytes().len() == 8,
            Self::parse(self.bytes()) == self,
    {
        lemma_le_value_of_u32(self.id);
        lemma_le_value_of_u16(self.event);
        lemma_le_value_of_u16(self.value);
        let all = self.bytes();
        assert(all.subrange(0, 4) =~= le_seq(self.id as nat, 4));
        assert(all.subrange(4, 6) =~= le_seq(self.event as nat, 2));
        assert(all.subrange(6, 8) =~= le_seq(self.value as nat, 2));
    }

    /// Memory that was read as a message is written back unchanged.
    pub proof fn lemma_bytes_parse(bytes: Seq<u8>)
        requires
            bytes.len() == 8,
        ensures
            Self::parse(bytes).bytes() == bytes,
    {
        lemma_field_4(bytes.subrange(0, 4));
        lemma_field_2(bytes.subrange(4, 6));
        lemma_field_2(bytes.subrange(6, 8));
        assert(Self::parse(bytes).bytes() =~= bytes);
    }

    /// Reads the message from the start of `bytes`, or nothing where it holds
    /// fewer than eight bytes.
    pub fn from_bytes(bytes: &[u8]) -> (r: Option<Control>)
        ensures
            bytes@.len() < 8 ==> r is None,
            bytes@.len() >= 8 ==> r == Some(Control::parse(bytes@.subrange(0, 8))),
    {
        if bytes.len() < 8 {
            return None;
        }
        let ghost head = bytes@.subrange(0, 8);
        assert(head.subrange(0, 4) =~= bytes@.subrange(0, 4));
        assert(head.subrange(4, 6) =~= bytes@.subrange(4, 6));
        assert(head.subrange(6, 8) =~= bytes@.subrange(6, 8));
        Some(Control { id: read_u32(bytes, 0), event: read_u16(bytes, 4), value: read_u16(bytes, 6) })
    }

    /// The eight bytes of the message.
    pub fn to_bytes(&self) -> (r: Vec<u8>)
        ensures
            r@ == self.bytes(),
            r@.len() == 8,
    {
        let mut out: Vec<u8> = Vec::new();
        write_u32(&mut out, self.id);
        write_u16(&mut out, self.event);
        write_u16(&mut out, self.value);
        proof {
            lemma_le_seq_len(self.id as nat, 4);
            lemma_le_seq_len(self.event as nat, 2);
            lemma_le_seq_len(self.value as nat, 2);
            assert(out@ =~= self.bytes());
        }
        out
    }

    /// The kind of event that the message carries.
    pub fn device(&self) -> (r: Device)
        ensures
            r == Device::of(self.event),
    {
        Device::from(self.event)
    }
}

/// Event
///
/// The enum is not laid out as its field on the wire: convert with
/// [`Device::from`] and `u16::from`. A number without a name is kept in
/// [`Device::Unknown`].
#[derive(Clone, Copy, Debug, PartialEq, Eq, Structural)]
#[non_exhaustive]
pub enum Device {
    /// Sent by the driver at initialization to indicate that it is ready to receive control messages.
    ///
    /// A value of 1 indicates success, and 0 indicates failure.
    /// The port number `id` is unused.
    DeviceReady,

    /// Sent by the device, to create a new port.
    ///
    /// `value` is unused.
    DeviceAdd,

    /// Sent by the device, to remove an existing port.
    ///
    /// `value` is unused.
    DeviceRemove,

    /// Sent by the driver in response to the device's port-add message, to indicate that the port is ready to be used.
    ///
    /// A `value` of 1 indicates success, and 0 indicates failure.
    PortReady,

    /// Sent by the device to nominate a port as a console port.
    ///
    /// There MAY be more than one console port.
    ConsolePort,

    /// Sent by the device to indicate a console size change.
    ///
    /// `value` is unused.
    /// The buffer is followed by the number of columns and rows ([`Resize`]).
    Resize,

    /// This message is sent by both the device and the driver.
    ///
    /// `value` indicates the state: 0 (port closed) or 1 (port open).
    /// This allows for ports to be used directly by guest and host processes to communicate in an application-defined manner.
    PortOpen,

    /// Sent by the device to give a tag to the port.
    ///
    /// This control command is immediately followed by the UTF-8 name of the port for identification within the guest (without a NUL terminator).
    PortName,

    Unknown(u16),
}

impl Device {
    /// The event that the number `v` stands for.
    pub open spec fn of(v: u16) -> Device {
        if v == 0 {
            Device::DeviceReady
        } else if v == 1 {
            Device::DeviceAdd
        } else if v == 2 {
            Device::DeviceRemove
        } else if v == 3 {
            Device::PortReady
        } else if v == 4 {
            Device::ConsolePort
        } else if v == 5 {
            Device::Resize
        } else if v == 6 {
            Device::PortOpen
        } else if v == 7 {
            Device::PortName
        } else {
            Device::Unknown(v)
        }
    }

    /// The number that stands for the event on the wire.
    pub open spec fn number(self) -> u16 {
        match self {
            Device::DeviceReady => 0,
            Device::DeviceAdd => 1,
            Device::DeviceRemove => 2,
            Device::PortReady => 3,
            Device::ConsolePort => 4,
            Device::Resize => 5,
            Device::PortOpen => 6,
            Device::PortName => 7,
            Device::Unknown(v) => v,
        }
    }

    /// Whether the event is the one that its number converts to: every
    /// named event, and `Unknown` of a number without a name.
    pub open spec fn canonical(self) -> bool {
        Device::of(self.number()) == self
    }

    /// Converting a number to an event and back gives the number again.
    pub proof fn lemma_number_of(v: u16)
        ensures
            Device::of(v).number() == v,
            Device::of(v).canonical(),
    {
    }
}

impl From<u16> for Device {
    fn from(number: u16) -> (r: Device) {
        match number {
            0 => Device::DeviceReady,
            1 => Device::DeviceAdd,
            2 => Device::DeviceRemove,
            3 => Device::PortReady,
            4 => Device::ConsolePort,
            5 => Device::Resize,
            6 => Device::PortOpen,
            7 => Device::PortName,
            _ => Device::Unknown(number),
        }
    }
}

impl vstd::std_specs::convert::FromSpecImpl<u16> for Device {
    open spec fn obeys_from_spec() -> bool {
        true
    }

    open spec fn from_spec(number: u16) -> Device {
        Device::of(number)
    }
}

impl From<Device> for u16 {
    fn from(event: Device) -> (r: u16) {
        match event {
            Device::DeviceReady => 0,
            Device::DeviceAdd => 1,
            Device::DeviceRemove => 2,
            Device::PortReady => 3,
            Device::ConsolePort => 4,
            Device::Resize => 5,
            Device::PortOpen => 6,
            Device::PortName => 7,
            Device::Unknown(v) => v,
        }
    }
}

impl vstd::std_specs::convert::FromSpecImpl<Device> for u16 {
    open spec fn obeys_from_spec() -> bool {
        true
    }

    open spec fn from_spec(event: Device) -> u16 {
        event.number()
    }
}

/// Resize Message Layout
#[derive(Clone, Copy, Debug, PartialEq, Eq, Structural)]
pub struct Resize {
    pub cols: u16,
    pub rows: u16,
}

impl Resize {
    /// The size of the message in bytes.
    pub const SIZE: usize = 4;

    /// The four bytes of the message.
    pub open spec fn bytes(self) -> Seq<u8> {
        le_seq(self.cols as nat, 2) + le_seq(self.rows as nat, 2)
    }

    /// The message that four bytes of memory hold.
    pub open spec fn parse(bytes: Seq<u8>) -> Resize
        recommends
            bytes.len() == 4,
    {
        Resize {
            cols: le_value(bytes.subrange(0, 2)) as u16,
            rows: le_value(bytes.subrange(2, 4)) as u16,
        }
    }

    /// A message that was written to memory is read back unchanged.
    pub proof fn lemma_parse_bytes(self)
        ensures
            self.bytes().len() == 4,
            Self::parse(self.bytes()) == self,
    {
        lemma_le_value_of_u16(self.cols);
        lemma_le_value_of_u16(self.rows);
        let all = self.bytes();
        assert(all.subrange(0, 2) =~= le_seq(self.cols as nat, 2));
        assert(all.subrange(2, 4) =~= le_seq(self.rows as nat, 2));
    }

    /// Memory that was read as a message is written back unchanged.
    pub proof fn lemma_bytes_parse(bytes: Seq<u8>)
        requires
            bytes.len() == 4,
        ensures
            Self::parse(bytes).bytes() == bytes,
    {
        lemma_field_2(bytes.subrange(0, 2));
        lemma_field_2(bytes.subrange(2, 4));
        assert(Self::parse(bytes).bytes() =~= bytes);
    }

    /// Reads the message from the start of `bytes`, or nothing where it holds
    /// fewer than four bytes.
    pub fn from_bytes(bytes: &[u8]) -> (r: Option<Resize>)
        ensures
            bytes@.len() < 4 ==> r is None,
            bytes@.len() >= 4 ==> r == Some(Resize::parse(bytes@.subrange(0, 4))),
    {
        if bytes.len() < 4 {
            return None;
        }
        let ghost head = bytes@.subrange(0, 4);
        assert(head.subrange(0, 2) =~= bytes@.subrange(0, 2));
        assert(head.subrange(2, 4) =~= bytes@.subrange(2, 4));
        Some(Resize { cols: read_u16(bytes, 0), rows: read_u16(bytes, 2) })
    }

    /// The four bytes of the message.
    pub fn to_bytes(&self) -> (r: Vec<u8>)
        ensures
            r@ == self.bytes(),
            r@.len() == 4,
    {
        let mut out: Vec<u8> = Vec::new();
        write_u16(&mut out, self.cols);
        write_u16(&mut out, self.rows);
        proof {
            lemma_le_seq_len(self.cols as nat, 2);
            lemma_le_seq_len(self.rows as nat, 2);
            assert(out@ =~= self.bytes());
        }
        out
    }
}

} // verus!
