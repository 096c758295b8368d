//! Serials, request routing, pins and state machines, bridges and the reset interface.

use rustprobe::autobaud::{
    autobaud_slot, start, stop, BaudResult, CaptureAction, CaptureEngine, Command,
};
use rustprobe::boot::{format_serial, process_request, stock_topology, DapRoute};
use rustprobe::config::{rp2350a, BoardProfile, ProbeConfig, Topology, UartConfig};
use rustprobe::instances::{block_probes, build_engines, probe_slot, PinTable, Slot};
use rustprobe::reset_iface::{
    control_out, watchdog_reply, ControlRequest, OutReply, Recipient, RequestType, ResetAction,
};
use rustprobe::uart_bridge::{
    apply_line_coding, Bridge, BridgeAction, BridgeEvent, DataBits, HardwareStopBits, LineCoding,
    Parity, ParityType, StopBits, UartSettings, Waiting, MAGIC_BAUD,
};

#[test]
fn serials_have_the_id_and_the_instance() {
    assert_eq!(format_serial(0x0123_4567_89AB_CDEF, 0), b"0123456789ABCDEF:0");
    assert_eq!(format_serial(0, 9), b"0000000000000000:9");
    assert_eq!(format_serial(0x00AB_CDEF_0123_4567, 10), b"00ABCDEF01234567:10");
    assert_eq!(format_serial(u64::MAX, 11), b"FFFFFFFFFFFFFFFF:11");
    assert_eq!(format_serial(1, 255), b"0000000000000001:255");
}

#[test]
fn serials_differ() {
    let mut seen = Vec::new();
    for uid in [0u64, 1, 16, 1 << 60, u64::MAX] {
        for instance in 0..12 {
            let serial = format_serial(uid, instance);
            assert!(!seen.contains(&serial));
            seen.push(serial);
        }
    }
}

#[test]
fn requests_are_routed() {
    let serial = b"0123456789ABCDEF:0";
    match process_request(&[0x00, 0x03, 0xFF], serial) {
        DapRoute::Respond(response) => {
            assert_eq!(response.len(), 21);
            assert_eq!(response[..2], [0, 19]);
            assert_eq!(&response[2..20], serial);
            assert_eq!(response[20], 0);
        }
        _ => panic!("the serial is answered here"),
    }
    assert_eq!(process_request(&[0x00, 0x04], serial), DapRoute::Dap);
    assert_eq!(process_request(&[0x00], serial), DapRoute::Dap);
    assert_eq!(process_request(&[], serial), DapRoute::Dap);
    assert_eq!(process_request(&[0x7F, 3], serial), DapRoute::Dap);
    assert_eq!(process_request(&[0x80], serial), DapRoute::Vendor);
    assert_eq!(process_request(&[0x9F], serial), DapRoute::Vendor);
    assert_eq!(process_request(&[0xA0], serial), DapRoute::Dap);
}

fn probes(n: u8) -> Topology {
    let mut t = Topology::default();
    for i in 0..n {
        t.probes.push(ProbeConfig { swclk: 2 * i, swdio: 2 * i + 1, reset: None }).unwrap();
    }
    t
}

#[test]
fn probes_get_state_machines_and_pins() {
    let mut t = probes(6);
    t.probes[5].reset = Some(20);
    let mut pins = PinTable::new();
    let plans = build_engines(&t, 2, &mut pins);
    assert_eq!(plans.len(), 6);
    assert_eq!(plans[0].slot, Slot { block: 0, sm: 0 });
    assert_eq!(plans[3].slot, Slot { block: 0, sm: 3 });
    assert_eq!(plans[4].slot, Slot { block: 1, sm: 0 });
    assert_eq!((plans[5].swclk, plans[5].swdio, plans[5].reset), (10, 11, Some(20)));
    for pin in 0..=255u8 {
        assert_eq!(pins.is_free(pin), (12..30).contains(&pin) && pin != 20);
    }
}

#[test]
fn probes_without_a_block_are_not_built() {
    let mut pins = PinTable::new();
    assert_eq!(build_engines(&probes(9), 2, &mut pins).len(), 8);
    assert!(pins.is_free(16));
    let mut pins = PinTable::new();
    assert_eq!(build_engines(&probes(9), 3, &mut pins).len(), 9);
    assert!(!pins.is_free(16));
    let mut pins = PinTable::new();
    assert_eq!(build_engines(&probes(0), 3, &mut pins).len(), 0);
}

#[test]
fn an_accepted_topology_leaves_its_bridge_pins_free() {
    let t = stock_topology();
    assert_eq!(t.validate(&rp2350a(), &BoardProfile::pico()), Ok(()));
    let mut pins = PinTable::new();
    build_engines(&t, 3, &mut pins);
    assert!(!pins.is_free(1) && !pins.is_free(2) && !pins.is_free(3));
    assert_eq!(pins.claim_gpio(4), 4);
    assert_eq!(pins.claim_pio(5), 5);
    assert!(!pins.is_free(4) && !pins.is_free(5));
}

#[test]
fn blocks_take_four_probes_each() {
    assert_eq!(block_probes(0, 0), None);
    assert_eq!(block_probes(3, 0), Some((0, 3)));
    assert_eq!(block_probes(4, 0), Some((0, 4)));
    assert_eq!(block_probes(4, 1), None);
    assert_eq!(block_probes(5, 1), Some((4, 5)));
    assert_eq!(block_probes(12, 2), Some((8, 12)));
    assert_eq!(block_probes(12, 3), None);
    assert_eq!(block_probes(12, usize::MAX), None);
    assert_eq!(probe_slot(11), Slot { block: 2, sm: 3 });
}

#[test]
fn autobaud_runs_beside_the_probes() {
    let expected = [
        (0, 0),
        (0, 3),
        (0, 3),
        (0, 3),
        (1, 0),
        (1, 3),
        (1, 3),
        (1, 3),
        (2, 0),
        (2, 3),
        (2, 3),
        (2, 3),
    ];
    for (n, (block, sm)) in expected.into_iter().enumerate() {
        let slot = autobaud_slot(n).unwrap();
        assert_eq!(slot, Slot { block, sm });
        for probe in 0..n {
            assert_ne!(probe_slot(probe), slot);
        }
    }
    assert_eq!(autobaud_slot(12), None);
}

#[test]
fn capture_sessions_start_and_stop() {
    let mut engine = CaptureEngine::new();
    assert!(!engine.is_capturing());
    assert_eq!(engine.command(stop()), CaptureAction::Keep);
    assert_eq!(engine.publish(Some(9600)), None);
    assert_eq!(engine.command(start(1, 9)), CaptureAction::Arm(9));
    assert!(engine.is_capturing());
    assert_eq!(engine.publish(None), None);
    assert_eq!(engine.publish(Some(9600)), Some(BaudResult { uart: 1, baud: 9600 }));
    engine.estimator.observe(0xFFFF_0000);
    // Another session takes over, without the samples of the first.
    assert_eq!(engine.command(start(0, 1)), CaptureAction::Arm(1));
    assert_eq!(engine.publish(Some(1)), Some(BaudResult { uart: 0, baud: 1 }));
    assert_eq!(engine.estimator.observe(0xFFFF_0000).total, 1);
    assert_eq!(engine.command(Command::Stop), CaptureAction::Disarm);
    assert!(!engine.is_capturing());
}

fn coding(data_rate: u32) -> LineCoding {
    LineCoding {
        data_rate,
        data_bits: 8,
        parity_type: ParityType::NoParity,
        stop_bits: StopBits::One,
    }
}

#[test]
fn line_codings_become_settings() {
    let base = UartSettings { invert_rx: true, ..UartSettings::default() };
    let mut c = coding(19200);
    let s = apply_line_coding(base, &c);
    assert_eq!(
        s,
        UartSettings {
            baudrate: 19200,
            data_bits: DataBits::DataBits8,
            stop_bits: HardwareStopBits::Stop1,
            parity: Parity::ParityNone,
            invert_rx: true,
            ..UartSettings::default()
        }
    );
    for (bits, expected) in [
        (5, DataBits::DataBits5),
        (6, DataBits::DataBits6),
        (7, DataBits::DataBits7),
        (8, DataBits::DataBits8),
        (16, DataBits::DataBits8),
        (0, DataBits::DataBits8),
    ] {
        c.data_bits = bits;
        assert_eq!(apply_line_coding(base, &c).data_bits, expected);
    }
    for (parity, expected) in [
        (ParityType::NoParity, Parity::ParityNone),
        (ParityType::Odd, Parity::ParityOdd),
        (ParityType::Even, Parity::ParityEven),
        (ParityType::Mark, Parity::ParityNone),
        (ParityType::Space, Parity::ParityNone),
    ] {
        c.parity_type = parity;
        assert_eq!(apply_line_coding(base, &c).parity, expected);
    }
    for (stop_bits, expected) in [
        (StopBits::One, HardwareStopBits::Stop1),
        (StopBits::OnePointFive, HardwareStopBits::Stop2),
        (StopBits::Two, HardwareStopBits::Stop2),
    ] {
        c.stop_bits = stop_bits;
        assert_eq!(apply_line_coding(base, &c).stop_bits, expected);
    }
}

#[test]
fn bridges_copy_bytes_both_ways() {
    let mut bridge = Bridge::new(0, 5);
    assert_eq!(bridge.waiting(true), Waiting::Connection);
    assert_eq!(bridge.step(BridgeEvent::Connected), BridgeAction::Nothing);
    assert_eq!(bridge.waiting(false), Waiting::Control);
    assert_eq!(bridge.step(BridgeEvent::ControlWhilePaused), BridgeAction::Nothing);
    assert_eq!(bridge.waiting(true), Waiting::Traffic);
    assert_eq!(
        bridge.step(BridgeEvent::HostPacket(vec![1, 2])),
        BridgeAction::ToTarget(vec![1, 2])
    );
    assert_eq!(
        bridge.step(BridgeEvent::TargetBytes(vec![3])),
        BridgeAction::ToHost(vec![3])
    );
    assert_eq!(bridge.step(BridgeEvent::TargetError), BridgeAction::Nothing);
    assert_eq!(bridge.waiting(true), Waiting::Traffic);
    assert_eq!(bridge.step(BridgeEvent::WriteFailed), BridgeAction::Nothing);
    assert_eq!(bridge.waiting(true), Waiting::Connection);
    bridge.step(BridgeEvent::Connected);
    assert_eq!(bridge.step(BridgeEvent::HostGone), BridgeAction::Nothing);
    assert_eq!(bridge.waiting(true), Waiting::Connection);
}

#[test]
fn the_magic_rate_starts_a_measurement() {
    let mut bridge = Bridge::new(1, 9);
    bridge.step(BridgeEvent::Connected);
    assert_eq!(
        bridge.step(BridgeEvent::LineChanged(coding(115200))),
        BridgeAction::SetBaud(115200)
    );
    let result = BaudResult { uart: 1, baud: 57600 };
    assert_eq!(bridge.step(BridgeEvent::Detected(result)), BridgeAction::Nothing);
    assert_eq!(
        bridge.step(BridgeEvent::LineChanged(coding(MAGIC_BAUD))),
        BridgeAction::Autobaud(start(1, 9))
    );
    assert_eq!(bridge.step(BridgeEvent::Detected(result)), BridgeAction::SetBaud(57600));
    let other = BaudResult { uart: 0, baud: 57600 };
    assert_eq!(bridge.step(BridgeEvent::Detected(other)), BridgeAction::Nothing);
    assert_eq!(
        bridge.step(BridgeEvent::LineChanged(coding(9600))),
        BridgeAction::AutobaudThenSetBaud(stop(), 9600)
    );
    assert_eq!(bridge.step(BridgeEvent::Detected(result)), BridgeAction::Nothing);
    assert_eq!(MAGIC_BAUD, 0x2600);
}

fn vendor_request(request: u8, value: u16) -> ControlRequest {
    ControlRequest {
        request_type: RequestType::Vendor,
        recipient: Recipient::Interface,
        request,
        value,
        index: 4,
    }
}

#[test]
fn reset_requests_are_decided() {
    assert_eq!(
        control_out(4, &vendor_request(1, 0x0003)),
        ResetAction::Bootsel { gpio_mask: 0, disable_mask: 3 }
    );
    assert_eq!(
        control_out(4, &vendor_request(1, 0x0100 | (25 << 9) | 0xFF)),
        ResetAction::Bootsel { gpio_mask: 1 << 25, disable_mask: 0x7F }
    );
    assert_eq!(
        control_out(4, &vendor_request(1, 0x0100 | (32 << 9))),
        ResetAction::Bootsel { gpio_mask: 0, disable_mask: 0 }
    );
    assert_eq!(control_out(4, &vendor_request(2, 0)), ResetAction::ArmWatchdog);
    assert_eq!(control_out(4, &vendor_request(3, 0)), ResetAction::Reject);
    assert_eq!(control_out(5, &vendor_request(2, 0)), ResetAction::NotOurs);
    let mut class = vendor_request(2, 0);
    class.request_type = RequestType::Class;
    assert_eq!(control_out(4, &class), ResetAction::NotOurs);
    let mut device = vendor_request(2, 0);
    device.recipient = Recipient::Device;
    assert_eq!(control_out(4, &device), ResetAction::NotOurs);
    assert_eq!(watchdog_reply(true), OutReply::Accepted);
    assert_eq!(watchdog_reply(false), OutReply::Rejected);
}

#[test]
fn uart_configs_are_plain_data() {
    let uart = UartConfig { tx: 4, rx: 5, baud: 115200 };
    assert_eq!(uart, stock_topology().uarts[0]);
}

#[test]
fn blocks_publish_for_the_latest_start() {
    let mut engine = CaptureEngine::new();
    assert_eq!(engine.command(stop()), CaptureAction::Keep);
    assert_eq!(engine.publish(Some(9600)), None);
    engine.command(start(1, 5));
    assert_eq!(engine.publish(None), None);
    assert_eq!(engine.publish(Some(9600)), Some(BaudResult { uart: 1, baud: 9600 }));
    engine.command(start(0, 17));
    assert_eq!(engine.publish(Some(115200)), Some(BaudResult { uart: 0, baud: 115200 }));
    assert_eq!(engine.command(stop()), CaptureAction::Disarm);
    assert_eq!(engine.publish(Some(115200)), None);
    assert_eq!(engine.command(stop()), CaptureAction::Keep);
}
