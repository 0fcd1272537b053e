use virtio_spec::console::{Control, Device};
use virtio_spec::error::Error;
use virtio_spec::{DeviceStatus, Id, RingEventFlags};

#[test]
fn id_from_named_numbers() {
    assert_eq!(Id::from(0u8), Id::Reserved);
    assert_eq!(Id::from(1u8), Id::Net);
    assert_eq!(Id::from(2u8), Id::Block);
    assert_eq!(Id::from(3u8), Id::Console);
    assert_eq!(Id::from(5u8), Id::Balloon);
    assert_eq!(Id::from(13u8), Id::MemoryBalloon);
    assert_eq!(Id::from(16u8), Id::Gpu);
    assert_eq!(Id::from(19u8), Id::Vsock);
    assert_eq!(Id::from(26u8), Id::Fs);
    assert_eq!(Id::from(36u8), Id::Can);
    assert_eq!(Id::from(38u8), Id::ParamServ);
    assert_eq!(Id::from(42u8), Id::Rdma);
}

#[test]
fn id_keeps_numbers_without_a_name() {
    assert_eq!(Id::from(14u8), Id::Unknown(14));
    assert_eq!(Id::from(15u8), Id::Unknown(15));
    assert_eq!(Id::from(37u8), Id::Unknown(37));
    assert_eq!(Id::from(43u8), Id::Unknown(43));
    assert_eq!(Id::from(255u8), Id::Unknown(255));
    assert_eq!(u8::from(Id::Unknown(200)), 200);
}

#[test]
fn id_round_trips_every_number() {
    for v in 0..=255u8 {
        assert_eq!(u8::from(Id::from(v)), v);
    }
}

#[test]
fn id_into_number() {
    assert_eq!(u8::from(Id::Net), 1);
    assert_eq!(u8::from(Id::Console), 3);
    assert_eq!(u8::from(Id::Rdma), 42);
    // An unknown ID with the number of a named one converts to that number.
    assert_eq!(u8::from(Id::Unknown(1)), 1);
    assert_eq!(Id::from(u8::from(Id::Unknown(1))), Id::Net);
}

#[test]
fn ring_event_flags_bits() {
    assert_eq!(RingEventFlags::from_bits(0), RingEventFlags::Enable);
    assert_eq!(RingEventFlags::from_bits(1), RingEventFlags::Disable);
    assert_eq!(RingEventFlags::from_bits(2), RingEventFlags::Desc);
    assert_eq!(RingEventFlags::from_bits(3), RingEventFlags::Reserved);
    assert_eq!(RingEventFlags::Enable.into_bits(), 0);
    assert_eq!(RingEventFlags::Disable.into_bits(), 1);
    assert_eq!(RingEventFlags::Desc.into_bits(), 2);
    assert_eq!(RingEventFlags::Reserved.into_bits(), 3);
    assert_eq!(u8::from(RingEventFlags::Desc), 2);
}

#[test]
fn ring_event_flags_try_from() {
    assert_eq!(RingEventFlags::try_from_primitive(0), Ok(RingEventFlags::Enable));
    assert_eq!(RingEventFlags::try_from_primitive(3), Ok(RingEventFlags::Reserved));
    assert_eq!(RingEventFlags::try_from_primitive(4), Err(4));
    assert_eq!(RingEventFlags::try_from_primitive(255), Err(255));
}

#[test]
fn device_status_bits() {
    let s = DeviceStatus::empty();
    assert_eq!(s.bits(), 0);
    let s = s.insert(DeviceStatus::ACKNOWLEDGE).insert(DeviceStatus::DRIVER);
    assert_eq!(s.bits(), 3);
    assert!(s.contains(DeviceStatus::ACKNOWLEDGE));
    assert!(s.contains(DeviceStatus::DRIVER));
    assert!(!s.contains(DeviceStatus::DRIVER_OK));
    let s = s.insert(DeviceStatus::FEATURES_OK).insert(DeviceStatus::DRIVER_OK);
    assert_eq!(s.bits(), 15);
    let s = s.remove(DeviceStatus::DRIVER);
    assert_eq!(s.bits(), 13);
    assert_eq!(DeviceStatus::FAILED, 128);
    assert_eq!(DeviceStatus::DEVICE_NEEDS_RESET, 64);
}

#[test]
fn device_status_keeps_unnamed_bits() {
    let s = DeviceStatus::from_bits_retain(0x30);
    assert_eq!(s.bits(), 0x30);
    assert_eq!(s.insert(DeviceStatus::ACKNOWLEDGE).bits(), 0x31);
}

#[test]
fn console_device_numbers() {
    assert_eq!(Device::from(0u16), Device::DeviceReady);
    assert_eq!(Device::from(1u16), Device::DeviceAdd);
    assert_eq!(Device::from(2u16), Device::DeviceRemove);
    assert_eq!(Device::from(3u16), Device::PortReady);
    assert_eq!(Device::from(4u16), Device::ConsolePort);
    assert_eq!(Device::from(5u16), Device::Resize);
    assert_eq!(Device::from(6u16), Device::PortOpen);
    assert_eq!(Device::from(7u16), Device::PortName);
    assert_eq!(Device::from(8u16), Device::Unknown(8));
    assert_eq!(Device::from(0xffffu16), Device::Unknown(0xffff));
    assert_eq!(u16::from(Device::PortName), 7);
    assert_eq!(u16::from(Device::Unknown(900)), 900);
    for v in [0u16, 1, 7, 8, 255, 256, 65535] {
        assert_eq!(u16::from(Device::from(v)), v);
    }
}

#[test]
fn console_control_event_kind() {
    let c = Control { id: 2, event: 6, value: 1 };
    assert_eq!(c.device(), Device::PortOpen);
    let c = Control { id: 2, event: 77, value: 0 };
    assert_eq!(c.device(), Device::Unknown(77));
}

#[test]
fn error_messages() {
    assert_eq!(Error::QueueFull.message(), "not enough free descriptor slots");
    assert_eq!(Error::MalformedChain.message(), "malformed descriptor chain");
    assert_eq!(Error::UnsupportedFeature.message(), "feature was not negotiated");
    assert_eq!(Error::ConfigReadTimeout.message(), "configuration space did not settle");
    assert!(Error::QueueFull.is_transient());
    assert!(Error::ConfigReadTimeout.is_transient());
    assert!(!Error::MalformedChain.is_transient());
    assert!(!Error::UnsupportedFeature.is_transient());
}

#[test]
fn little_endian_types_are_exported() {
    let v = virtio_spec::le32::from_ne(0x1234_5678);
    assert_eq!(v.to_ne(), 0x1234_5678);
    assert_eq!(v.to_le_bytes(), [0x78, 0x56, 0x34, 0x12]);
    assert_eq!(virtio_spec::Le::<u16>::from_le_bytes([1, 2]).to_ne(), 0x0201);
}
