//! Device selection, and what the command line tool decides and prints.

use rustprobe::boot::stock_topology;
use rustprobe::cli::{
    assumed_profile, broken_by, check_board, info_text, is_blank, profile_text, set_commands,
    summary_text, written_text, SetBoardError,
};
use rustprobe::config::{rp2040, rp2350a, BoardProfile, ValidationError};
use rustprobe::protocol::{Chip, FirmwareInfo, CMD_REBOOT};
use rustprobe::session::set_topology;
use rustprobe::transport::{
    bulk_endpoints, config_interface, find_device, is_dap_interface, list_devices, summarize,
    DeviceInfo, EndpointInfo, FindError, InterfaceInfo, PID, VID,
};

fn interface(number: u8, string: Option<&str>) -> InterfaceInfo {
    InterfaceInfo { number, string: string.map(str::to_owned) }
}

fn device(product_id: u16, serial: Option<&str>) -> DeviceInfo {
    DeviceInfo {
        vendor_id: VID,
        product_id,
        serial: serial.map(str::to_owned),
        product: Some("Rustprobe (CMSIS-DAP)".to_owned()),
        interfaces: vec![
            interface(3, Some("CMSIS-DAP v2 Interface")),
            interface(0, None),
            interface(1, Some("My CMSIS-DAP")),
            interface(2, Some("Reset")),
        ],
    }
}

#[test]
fn dap_interfaces_are_marked_by_their_string() {
    for (string, expected) in [
        (Some("CMSIS-DAP v2 Interface"), true),
        (Some("CMSIS-DAP"), true),
        (Some("a CMSIS-CMSIS-DAP"), true),
        (Some("CMSIS-DA"), false),
        (Some("cmsis-dap"), false),
        (Some(""), false),
        (Some("é CMSIS-DAP é"), true),
        (None, false),
    ] {
        assert_eq!(is_dap_interface(&interface(0, string)), expected, "{:?}", string);
    }
}

#[test]
fn devices_are_matched_by_ids() {
    let mut other = device(PID, None);
    other.vendor_id = 0x1234;
    let devices = vec![device(0x0004, None), device(PID, Some("A")), other, device(PID, None)];
    assert_eq!(list_devices(&devices), [1, 3]);
    assert!(list_devices(&vec![]).is_empty());
}

#[test]
fn one_device_is_selected() {
    let none = vec![device(0x0004, Some("A"))];
    assert_eq!(find_device(&none, None), Err(FindError::NoDevice));
    assert_eq!(find_device(&none, Some("A")), Err(FindError::NoSuchSerial));
    let one = vec![device(0x0004, Some("A")), device(PID, Some("B"))];
    assert_eq!(find_device(&one, None), Ok(1));
    assert_eq!(find_device(&one, Some("B")), Ok(1));
    assert_eq!(find_device(&one, Some("A")), Err(FindError::NoSuchSerial));
    let many = vec![
        device(PID, None),
        device(PID, Some("AB")),
        device(PID, Some("A")),
        device(PID, Some("A")),
    ];
    assert_eq!(find_device(&many, None), Err(FindError::Ambiguous(4)));
    assert_eq!(find_device(&many, Some("A")), Ok(2));
    assert_eq!(find_device(&many, Some("")), Err(FindError::NoSuchSerial));
}

#[test]
fn devices_are_summarized() {
    let s = summarize(&device(PID, Some("0123456789ABCDEF:0")));
    assert_eq!(s.serial.as_deref(), Some("0123456789ABCDEF:0"));
    assert_eq!(s.product.as_deref(), Some("Rustprobe (CMSIS-DAP)"));
    assert_eq!(s.dap_interfaces, [3, 1]);
    assert_eq!(
        summary_text(&s),
        "0123456789ABCDEF:0\n  product:    Rustprobe (CMSIS-DAP)\n  interfaces: 2 CMSIS-DAP\n"
    );
    let mut bare = device(PID, None);
    bare.product = None;
    bare.interfaces = vec![];
    assert_eq!(
        summary_text(&summarize(&bare)),
        "<no serial>\n  product:    ?\n  interfaces: 0 CMSIS-DAP\n"
    );
}

#[test]
fn the_lowest_dap_interface_is_claimed() {
    assert_eq!(config_interface(&device(PID, None)), Some(1));
    let mut bare = device(PID, None);
    bare.interfaces = vec![interface(0, None)];
    assert_eq!(config_interface(&bare), None);
}

#[test]
fn the_first_bulk_pair_is_used() {
    let ep = |bulk: bool, address: u8| EndpointInfo { bulk, input: address >= 0x80, address };
    assert_eq!(
        bulk_endpoints(&vec![ep(false, 0x83), ep(true, 0x01), ep(true, 0x82), ep(true, 0x02)]),
        Some((0x01, 0x82))
    );
    assert_eq!(bulk_endpoints(&vec![ep(true, 0x81), ep(true, 0x82), ep(true, 0x03)]), Some((3, 0x81)));
    assert_eq!(bulk_endpoints(&vec![ep(true, 0x81)]), None);
    assert_eq!(bulk_endpoints(&vec![ep(true, 0x01)]), None);
    assert_eq!(bulk_endpoints(&vec![]), None);
}

fn info(protocol_version: u8) -> FirmwareInfo {
    FirmwareInfo {
        protocol_version,
        firmware_version: (1, 20, 255),
        chip: Chip::Rp2350,
        limits: rp2350a(),
        active_probes: 9,
        active_uarts: 2,
        config_fault: true,
    }
}

#[test]
fn old_firmware_is_taken_for_a_pico() {
    assert_eq!(assumed_profile(&info(1)), Some(BoardProfile::pico()));
    assert_eq!(assumed_profile(&info(2)), None);
    assert_eq!(assumed_profile(&info(3)), None);
}

#[test]
fn profiles_are_checked_before_they_are_sent() {
    let pico = BoardProfile::pico();
    assert_eq!(check_board(&pico, &info(2)), Ok(()));
    assert_eq!(check_board(&pico, &info(1)), Err(SetBoardError::FirmwareTooOld(1)));
    let empty = BoardProfile { available: 0, reserved: 0 };
    assert_eq!(
        check_board(&empty, &info(2)),
        Err(SetBoardError::Invalid(ValidationError::ProfileEmpty))
    );
}

#[test]
fn a_broken_active_topology_is_noticed() {
    assert_eq!(broken_by(&stock_topology(), &info(2), &BoardProfile::pico()), None);
    let narrow = BoardProfile { available: 0xFF, reserved: 0x10 };
    assert_eq!(
        broken_by(&stock_topology(), &info(2), &narrow),
        Some(ValidationError::PinUnavailable(4))
    );
}

#[test]
fn information_is_printed() {
    let mut i = info(2);
    assert_eq!(
        info_text(&i),
        "chip:             Rp2350\n\
         firmware version: 1.20.255\n\
         protocol version: 2\n\
         active probes:    9\n\
         active uarts:     2\n\
         config fault:     true\n\
         limits:\n  \
         gpio count:     30\n  \
         pio blocks:     3\n  \
         sms per block:  4\n  \
         ep numbers/dir: 15\n  \
         pio pin window: 32\n"
    );
    i.chip = Chip::Rp2040;
    i.limits = rp2040();
    i.config_fault = false;
    assert!(info_text(&i).starts_with("chip:             Rp2040\n"));
    assert!(info_text(&i).contains("config fault:     false\n"));
    assert_eq!(
        profile_text(&BoardProfile::pico()),
        "board profile:\n  available:      0-28\n  reserved:       23-25,29\n"
    );
    assert_eq!(written_text(&stock_topology()), "topology written (1 probes, 1 uarts)\n");
}

#[test]
fn blank_text_is_white_space_only() {
    assert!(is_blank(""));
    assert!(is_blank(" \n\t\u{2003}"));
    assert!(!is_blank(" . "));
}

#[test]
fn only_valid_topologies_are_staged() {
    let topology = stock_topology();
    let written = set_topology(&topology).unwrap();
    let pico = BoardProfile::pico();
    assert_eq!(set_commands(&topology, &info(2), &pico, false), Ok(written.clone()));
    let mut and_reboot = written;
    and_reboot.push(vec![CMD_REBOOT]);
    assert_eq!(set_commands(&topology, &info(2), &pico, true), Ok(and_reboot));
    let narrow = BoardProfile { available: 0b1011, reserved: 0 };
    for reboot in [false, true] {
        assert_eq!(
            set_commands(&topology, &info(2), &narrow, reboot),
            Err(ValidationError::PinUnavailable(2))
        );
    }
}
