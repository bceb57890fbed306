use fastboot_protocol::device::{
    devices, AltSetting, Direction, EndpointInfo, InterfaceInfo, NusbFastBoot, TransferType,
};
use fastboot_protocol::error::NusbFastBootOpenError;

fn interface(interface_number: u8, class: u8, subclass: u8, protocol: u8) -> InterfaceInfo {
    InterfaceInfo { interface_number, class, subclass, protocol }
}

fn endpoint(
    address: u8,
    transfer_type: TransferType,
    direction: Direction,
    max_packet_size: u16,
) -> EndpointInfo {
    EndpointInfo { address, transfer_type, direction, max_packet_size }
}

#[test]
fn first_fastboot_interface_is_found() {
    let interfaces = [
        interface(0, 0xff, 0x42, 0x1),
        interface(1, 0x08, 0x42, 0x3),
        interface(2, 0xff, 0x42, 0x3),
        interface(3, 0xff, 0x42, 0x3),
    ];
    assert_eq!(NusbFastBoot::find_fastboot_interface(&interfaces), Some(2));
    assert_eq!(NusbFastBoot::find_fastboot_interface(&interfaces[..2]), None);
    assert_eq!(NusbFastBoot::find_fastboot_interface(&[]), None);
    assert_eq!(NusbFastBoot::find_fastboot_interface(&[interface(7, 0xff, 0x41, 0x3)]), None);
}

#[test]
fn device_without_fastboot_cannot_be_opened() {
    assert!(matches!(NusbFastBoot::from_info(&[interface(4, 0xff, 0x42, 0x3)]), Ok(4)));
    assert!(matches!(
        NusbFastBoot::from_info(&[interface(4, 0xff, 0x42, 0x1)]),
        Err(NusbFastBootOpenError::MissingInterface)
    ));
}

#[test]
fn client_takes_the_first_setting_with_both_endpoints() {
    let settings = [
        AltSetting { endpoints: vec![endpoint(0x01, TransferType::Bulk, Direction::Out, 64)] },
        AltSetting {
            endpoints: vec![
                endpoint(0x82, TransferType::Interrupt, Direction::In, 8),
                endpoint(0x83, TransferType::Bulk, Direction::In, 512),
                endpoint(0x04, TransferType::Bulk, Direction::Out, 1024),
                endpoint(0x05, TransferType::Bulk, Direction::Out, 64),
                endpoint(0x86, TransferType::Bulk, Direction::In, 64),
            ],
        },
        AltSetting {
            endpoints: vec![
                endpoint(0x87, TransferType::Bulk, Direction::In, 16),
                endpoint(0x08, TransferType::Bulk, Direction::Out, 16),
            ],
        },
    ];
    let client = NusbFastBoot::from_interface(&settings).unwrap();
    assert_eq!(client, NusbFastBoot { ep_out: 0x04, max_out: 1024, ep_in: 0x83, max_in: 512 });
}

#[test]
fn client_needs_both_endpoints() {
    let settings = [
        AltSetting { endpoints: vec![endpoint(0x01, TransferType::Bulk, Direction::Out, 64)] },
        AltSetting { endpoints: vec![endpoint(0x81, TransferType::Bulk, Direction::In, 64)] },
        AltSetting {
            endpoints: vec![
                endpoint(0x81, TransferType::Isochronous, Direction::In, 64),
                endpoint(0x01, TransferType::Control, Direction::Out, 64),
            ],
        },
    ];
    assert!(matches!(
        NusbFastBoot::from_interface(&settings),
        Err(NusbFastBootOpenError::MissingEndpoints)
    ));
    assert!(matches!(
        NusbFastBoot::from_interface(&[]),
        Err(NusbFastBootOpenError::MissingEndpoints)
    ));
}

#[test]
fn fastboot_devices_are_kept_in_order() {
    let found = vec![
        ("hub", vec![interface(0, 0x09, 0, 0)]),
        ("phone", vec![interface(0, 0x08, 6, 80), interface(1, 0xff, 0x42, 0x3)]),
        ("bare", vec![]),
        ("board", vec![interface(0, 0xff, 0x42, 0x3)]),
    ];
    assert_eq!(devices(found), vec!["phone", "board"]);
}
