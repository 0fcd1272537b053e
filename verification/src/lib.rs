//! Definitions of the virtio transport, with their behaviour stated in
//! contracts and proved.
//!
//! | Part                                   | Module       |
//! | -------------------------------------- | ------------ |
//! | Little-endian fields                   | [`wire`]     |
//! | Split virtqueue layouts and chains     | [`virtq`]    |
//! | Split virtqueue, driver and device     | [`split`]    |
//! | Packed virtqueue layouts and ownership | [`pvirtq`]   |
//! | Packed virtqueue, driver and device    | [`packed`]   |
//! | Event suppression                      | [`event`]    |
//! | Stable reads of configuration space    | [`config`]   |
//! | Console device                         | [`console`]  |
//! | Traditional memory balloon device      | [`balloon`]  |
//!
//! The queues keep the rings in memory of their own, laid out as both sides
//! of a transport see them, so that a driver can be run against the model of
//! a device.

use vstd::prelude::*;

pub use endian_num::{be128, be16, be32, be64, le128, le16, le32, le64, Be, Le};

pub mod error;
mod barrier;
pub mod config;
pub mod wire;
pub mod ring;
pub mod virtq;
pub mod split;
pub mod pvirtq;
pub mod packed;
pub mod event;
pub mod balloon;
pub mod console;

verus! {

/// Device Status Field
///
/// A set of bits that shows how far the driver has come in initialising the
/// device. Bits without a name are kept as they are.
#[derive(Clone, Copy, Debug, PartialEq, Eq, Structural)]
pub struct DeviceStatus {
    bits: u8,
}

impl DeviceStatus {
    /// The guest OS has found the device and recognized it as a valid virtio device.
    pub const ACKNOWLEDGE: u8 = 1;

    /// The guest OS knows how to drive the device.
    pub const DRIVER: u8 = 2;

    /// Something went wrong in the guest, and it has given up on the device.
    pub const FAILED: u8 = 128;

    /// The driver has acknowledged all the features it understands.
    pub const FEATURES_OK: u8 = 8;

    /// The driver is set up and ready to drive the device.
    pub const DRIVER_OK: u8 = 4;

    /// The device has experienced an error from which it can't recover.
    pub const DEVICE_NEEDS_RESET: u8 = 64;

    /// The bits of the set.
    pub closed spec fn view(self) -> u8 {
        self.bits
    }

    /// The set with no bit.
    pub fn empty() -> (r: Self)
        ensures
            r@ == 0,
    {
        DeviceStatus { bits: 0 }
    }

    /// The set with exactly the bits of `bits`, named or not.
    pub fn from_bits_retain(bits: u8) -> (r: Self)
        ensures
            r@ == bits,
    {
        DeviceStatus { bits }
    }

    /// The bits of the set.
    pub fn bits(self) -> (r: u8)
        ensures
            r == self@,
    {
        self.bits
    }

    /// Whether every bit of `flags` is in the set.
    pub fn contains(self, flags: u8) -> (r: bool)
        ensures
            r == (self@ & flags == flags),
    {
        self.bits & flags == flags
    }

    /// The set with the bits of `flags` added.
    pub fn insert(self, flags: u8) -> (r: Self)
        ensures
            r@ == self@ | flags,
    {
        DeviceStatus { bits: self.bits | flags }
    }

    /// The set without the bits of `flags`.
    pub fn remove(self, flags: u8) -> (r: Self)
        ensures
            r@ == self@ & !flags,
    {
        DeviceStatus { bits: self.bits & !flags }
    }
}

/// Virtio Device IDs
///
/// The enum is not laid out as its field on the wire: convert with
/// [`Id::from`] and `u8::from`. A number without a name is kept in
/// [`Id::Unknown`].
#[derive(Clone, Copy, Debug, PartialEq, Eq, Structural)]
#[non_exhaustive]
pub enum Id {
    /// reserved (invalid)
    Reserved,

    /// network card
    Net,

    /// block device
    Block,

    /// console
    Console,

    /// entropy source
    Rng,

    /// memory ballooning (traditional)
    Balloon,

    /// ioMemory
    IoMem,

    /// rpmsg
    Rpmsg,

    /// SCSI host
    Scsi,

    /// 9P transport
    NineP,

    /// mac80211 wlan
    Mac80211Wlan,

    /// rproc serial
    RprocSerial,

    /// virtio CAIF
    Caif,

    /// memory balloon
    MemoryBalloon,

    /// GPU device
    Gpu,

    /// Timer/Clock device
    Clock,

    /// Input device
    Input,

    /// Socket device
    Vsock,

    /// Crypto device
    Crypto,

    /// Signal Distribution Module
    SignalDist,

    /// pstore device
    Pstore,

    /// IOMMU device
    Iommu,

    /// Memory device
    Mem,

    /// Audio device
    Sound,

    /// file system device
    Fs,

    /// PMEM device
    Pmem,

    /// RPMB device
    Rpmb,

    /// mac80211 hwsim wireless simulation device
    Mac80211Hwsim,

    /// Video encoder device
    VideoEncoder,

    /// Video decoder device
    VideoDecoder,

    /// SCMI device
    Scmi,

    /// NitroSecureModule
    NitroSecMod,

    /// I2C adapter
    I2cAdapter,

    /// Watchdog
    Watchdog,

    /// CAN device
    Can,

    /// Parameter Server
    ParamServ,

    /// Audio policy device
    AudioPolicy,

    /// Bluetooth device
    Bt,

    /// GPIO device
    Gpio,

    /// RDMA device
    Rdma,

    /// Unknown device
    Unknown(u8),
}

impl Id {
    /// The device ID that the number `v` stands for.
    pub open spec fn of(v: u8) -> Id {
        if v == 0 {
            Id::Reserved
        } else if v == 1 {
            Id::Net
        } else if v == 2 {
            Id::Block
        } else if v == 3 {
            Id::Console
        } else if v == 4 {
            Id::Rng
        } else if v == 5 {
            Id::Balloon
        } else if v == 6 {
            Id::IoMem
        } else if v == 7 {
            Id::Rpmsg
        } else if v == 8 {
            Id::Scsi
        } else if v == 9 {
            Id::NineP
        } else if v == 10 {
            Id::Mac80211Wlan
        } else if v == 11 {
            Id::RprocSerial
        } else if v == 12 {
            Id::Caif
        } else if v == 13 {
            Id::MemoryBalloon
        } else if v == 16 {
            Id::Gpu
        } else if v == 17 {
            Id::Clock
        } else if v == 18 {
            Id::Input
        } else if v == 19 {
            Id::Vsock
        } else if v == 20 {
            Id::Crypto
        } else if v == 21 {
            Id::SignalDist
        } else if v == 22 {
            Id::Pstore
        } else if v == 23 {
            Id::Iommu
        } else if v == 24 {
            Id::Mem
        } else if v == 25 {
            Id::Sound
        } else if v == 26 {
            Id::Fs
        } else if v == 27 {
            Id::Pmem
        } else if v == 28 {
            Id::Rpmb
        } else if v == 29 {
            Id::Mac80211Hwsim
        } else if v == 30 {
            Id::VideoEncoder
        } else if v == 31 {
            Id::VideoDecoder
        } else if v == 32 {
            Id::Scmi
        } else if v == 33 {
            Id::NitroSecMod
        } else if v == 34 {
            Id::I2cAdapter
        } else if v == 35 {
            Id::Watchdog
        } else if v == 36 {
            Id::Can
        } else if v == 38 {
            Id::ParamServ
        } else if v == 39 {
            Id::AudioPolicy
        } else if v == 40 {
            Id::Bt
        } else if v == 41 {
            Id::Gpio
        } else if v == 42 {
            Id::Rdma
        } else {
            Id::Unknown(v)
        }
    }

    /// The number that stands for the device ID on the wire.
    pub open spec fn number(self) -> u8 {
        match self {
            Id::Reserved => 0,
            Id::Net => 1,
            Id::Block => 2,
            Id::Console => 3,
            Id::Rng => 4,
            Id::Balloon => 5,
            Id::IoMem => 6,
            Id::Rpmsg => 7,
            Id::Scsi => 8,
            Id::NineP => 9,
            Id::Mac80211Wlan => 10,
            Id::RprocSerial => 11,
            Id::Caif => 12,
            Id::MemoryBalloon => 13,
            Id::Gpu => 16,
            Id::Clock => 17,
            Id::Input => 18,
            Id::Vsock => 19,
            Id::Crypto => 20,
            Id::SignalDist => 21,
            Id::Pstore => 22,
            Id::Iommu => 23,
            Id::Mem => 24,
            Id::Sound => 25,
            Id::Fs => 26,
            Id::Pmem => 27,
            Id::Rpmb => 28,
            Id::Mac80211Hwsim => 29,
            Id::VideoEncoder => 30,
            Id::VideoDecoder => 31,
            Id::Scmi => 32,
            Id::NitroSecMod => 33,
            Id::I2cAdapter => 34,
            Id::Watchdog => 35,
            Id::Can => 36,
            Id::ParamServ => 38,
            Id::AudioPolicy => 39,
            Id::Bt => 40,
            Id::Gpio => 41,
            Id::Rdma => 42,
            Id::Unknown(v) => v,
        }
    }

    /// Whether the ID is the one that its number converts to: every named
    /// ID, and `Unknown` of a number without a name.
    pub open spec fn canonical(self) -> bool {
        Id::of(self.number()) == self
    }

    /// Converting a number to an ID and back gives the number again.
    pub proof fn lemma_number_of(v: u8)
        ensures
            Id::of(v).number() == v,
            Id::of(v).canonical(),
    {
    }
}

impl From<u8> for Id {
    fn from(number: u8) -> (r: Id) {
        match number {
            0 => Id::Reserved,
            1 => Id::Net,
            2 => Id::Block,
            3 => Id::Console,
            4 => Id::Rng,
            5 => Id::Balloon,
            6 => Id::IoMem,
            7 => Id::Rpmsg,
            8 => Id::Scsi,
            9 => Id::NineP,
            10 => Id::Mac80211Wlan,
            11 => Id::RprocSerial,
            12 => Id::Caif,
            13 => Id::MemoryBalloon,
            16 => Id::Gpu,
            17 => Id::Clock,
            18 => Id::Input,
            19 => Id::Vsock,
            20 => Id::Crypto,
            21 => Id::SignalDist,
            22 => Id::Pstore,
            23 => Id::Iommu,
            24 => Id::Mem,
            25 => Id::Sound,
            26 => Id::Fs,
            27 => Id::Pmem,
            28 => Id::Rpmb,
            29 => Id::Mac80211Hwsim,
            30 => Id::VideoEncoder,
            31 => Id::VideoDecoder,
            32 => Id::Scmi,
            33 => Id::NitroSecMod,
            34 => Id::I2cAdapter,
            35 => Id::Watchdog,
            36 => Id::Can,
            38 => Id::ParamServ,
            39 => Id::AudioPolicy,
            40 => Id::Bt,
            41 => Id::Gpio,
            42 => Id::Rdma,
            _ => Id::Unknown(number),
        }
    }
}

impl vstd::std_specs::convert::FromSpecImpl<u8> for Id {
    open spec fn obeys_from_spec() -> bool {
        true
    }

    open spec fn from_spec(number: u8) -> Id {
        Id::of(number)
    }
}

impl From<Id> for u8 {
    fn from(id: Id) -> (r: u8) {
        match id {
            Id::Reserved => 0,
            Id::Net => 1,
            Id::Block => 2,
            Id::Console => 3,
            Id::Rng => 4,
            Id::Balloon => 5,
            Id::IoMem => 6,
            Id::Rpmsg => 7,
            Id::Scsi => 8,
            Id::NineP => 9,
            Id::Mac80211Wlan => 10,
            Id::RprocSerial => 11,
            Id::Caif => 12,
            Id::MemoryBalloon => 13,
            Id::Gpu => 16,
            Id::Clock => 17,
            Id::Input => 18,
            Id::Vsock => 19,
            Id::Crypto => 20,
            Id::SignalDist => 21,
            Id::Pstore => 22,
            Id::Iommu => 23,
            Id::Mem => 24,
            Id::Sound => 25,
            Id::Fs => 26,
            Id::Pmem => 27,
            Id::Rpmb => 28,
            Id::Mac80211Hwsim => 29,
            Id::VideoEncoder => 30,
            Id::VideoDecoder => 31,
            Id::Scmi => 32,
            Id::NitroSecMod => 33,
            Id::I2cAdapter => 34,
            Id::Watchdog => 35,
            Id::Can => 36,
            Id::ParamServ => 38,
            Id::AudioPolicy => 39,
            Id::Bt => 40,
            Id::Gpio => 41,
            Id::Rdma => 42,
            Id::Unknown(v) => v,
        }
    }
}

impl vstd::std_specs::convert::FromSpecImpl<Id> for u8 {
    open spec fn obeys_from_spec() -> bool {
        true
    }

    open spec fn from_spec(id: Id) -> u8 {
        id.number()
    }
}

/// Descriptor Ring Change Event Flags
#[derive(Clone, Copy, Debug, PartialEq, Eq, Structural)]
#[non_exhaustive]
pub enum RingEventFlags {
    /// Enable events
    Enable,

    /// Disable events
    Disable,

    /// Enable events for a specific descriptor
    /// (as specified by Descriptor Ring Change Event Offset/Wrap Counter).
    /// Only valid if VIRTIO_F_EVENT_IDX has been negotiated.
    Desc,

    Reserved,
}

impl RingEventFlags {
    /// The two bits that stand for the flags on the wire.
    pub open spec fn bits(self) -> u8 {
        match self {
            RingEventFlags::Enable => 0,
            RingEventFlags::Disable => 1,
            RingEventFlags::Desc => 2,
            RingEventFlags::Reserved => 3,
        }
    }

    /// The flags that the two bits `bits` stand for.
    pub open spec fn of_bits(bits: u8) -> RingEventFlags
        recommends
            bits <= 3,
    {
        if bits == 0 {
            RingEventFlags::Enable
        } else if bits == 1 {
            RingEventFlags::Disable
        } else if bits == 2 {
            RingEventFlags::Desc
        } else {
            RingEventFlags::Reserved
        }
    }

    /// The flags of a two-bit field.
    pub fn from_bits(bits: u8) -> (r: Self)
        requires
            bits <= 3,
        ensures
            r == Self::of_bits(bits),
            r.bits() == bits,
    {
        match bits {
            0 => RingEventFlags::Enable,
            1 => RingEventFlags::Disable,
            2 => RingEventFlags::Desc,
            _ => RingEventFlags::Reserved,
        }
    }

    /// The two-bit field of the flags.
    pub fn into_bits(self) -> (r: u8)
        ensures
            r == self.bits(),
            r <= 3,
            Self::of_bits(r) == self,
    {
        match self {
            RingEventFlags::Enable => 0,
            RingEventFlags::Disable => 1,
            RingEventFlags::Desc => 2,
            RingEventFlags::Reserved => 3,
        }
    }

    /// The flags of a number, or the number itself where it is above 3 and
    /// stands for none.
    pub fn try_from_primitive(number: u8) -> (r: Result<Self, u8>)
        ensures
            number <= 3 ==> r == Ok::<Self, u8>(Self::of_bits(number)),
            number > 3 ==> r == Err::<Self, u8>(number),
    {
        if number <= 3 {
            Ok(Self::from_bits(number))
        } else {
            Err(number)
        }
    }
}

impl From<RingEventFlags> for u8 {
    fn from(flags: RingEventFlags) -> (r: u8) {
        flags.into_bits()
    }
}

impl vstd::std_specs::convert::FromSpecImpl<RingEventFlags> for u8 {
    open spec fn obeys_from_spec() -> bool {
        true
    }

    open spec fn from_spec(flags: RingEventFlags) -> u8 {
        flags.bits()
    }
}

/// Common device configuration space functionality.
pub trait DeviceConfigSpace: Sized {
    /// Reads from the device configuration space with `f` and returns only a
    /// value that was read while the configuration atomicity value of the
    /// device stayed the same before and after `f`.
    ///
    /// Use it to read fields wider than 32 bits, or several fields at once.
    /// An implementation may call `f` any number of times.
    fn read_config_with<F, T>(self, f: F) -> T where F: FnMut() -> T;
}

} // verus!
