//! The config protocol, host and probe together.

use rustprobe::boot::{boot_profile, boot_topology, firmware_info, stock_topology};
use rustprobe::config::{
    rp2040, rp2350a, rp2350b, BoardProfile, ProbeConfig, Topology, UartConfig,
};
use rustprobe::flash_config::{
    config_range, flash_size, load_profile, load_topology, store_item, CommitItem, KEY_PROFILE,
    KEY_TOPOLOGY,
};
use rustprobe::protocol::{
    Chip, FirmwareInfo, CMD_BOOTSEL, CMD_COMMIT, CMD_CTRL_DIAG, CMD_GET_PROFILE, CMD_GET_TOPOLOGY,
    CMD_INFO, CMD_REBOOT, CMD_SET_PROFILE, CMD_SET_TOPOLOGY, PROTOCOL_VERSION,
    STATUS_ERR_BAD_REQUEST, STATUS_ERR_DECODE, STATUS_ERR_FLASH, STATUS_ERR_INVALID, STATUS_OK,
};
use rustprobe::reset_iface::{ControlRequest, CtrlDiag, Recipient, RequestType};
use rustprobe::session::{
    check, get_profile, get_profile_request, info, info_request, reboot_bootsel_request,
    reboot_request, set_profile_request, set_topology, stage_and_commit, status_str, Payload,
    CommandSequence, SessionError, TopologyReader,
};
use rustprobe::vendor::{AfterResponse, ConfigService, ServiceStep};
use rustprobe::wire::{
    info_from_bytes, info_to_bytes, profile_from_bytes, profile_to_bytes, topology_from_bytes,
    topology_to_bytes, WireError,
};

fn sample_info() -> FirmwareInfo {
    FirmwareInfo {
        protocol_version: PROTOCOL_VERSION,
        firmware_version: (0, 1, 0),
        chip: Chip::Rp2040,
        limits: rp2040(),
        active_probes: 1,
        active_uarts: 1,
        config_fault: false,
    }
}

fn big_topology() -> Topology {
    let mut t = Topology::default();
    for i in 0..7u8 {
        let reset = if i < 3 { Some(16 + i) } else { None };
        t.probes.push(ProbeConfig { swclk: 2 * i, swdio: 2 * i + 1, reset }).unwrap();
    }
    t.uarts.push(UartConfig { tx: 20, rx: 21, baud: 4_000_000_000 }).unwrap();
    t
}

fn largest_topology() -> Topology {
    let mut t = Topology::default();
    for i in 0..12u8 {
        t.probes.push(ProbeConfig { swclk: i, swdio: 100 + i, reset: Some(200 + i) }).unwrap();
    }
    for _ in 0..2 {
        t.uarts.push(UartConfig { tx: 250, rx: 251, baud: u32::MAX }).unwrap();
    }
    t
}

fn service(active: Topology) -> ConfigService {
    ConfigService::new(sample_info(), active, rp2040(), BoardProfile::pico())
}

fn answer(service: &mut ConfigService, request: &[u8]) -> Vec<u8> {
    match service.handle(request, &CtrlDiag::new()) {
        ServiceStep::Reply { response, .. } => response,
        ServiceStep::StoreTopology(_) => service.topology_stored(true),
        ServiceStep::StoreProfile(profile) => service.profile_stored(profile, true),
    }
}

fn read_topology(service: &mut ConfigService) -> Result<Topology, SessionError> {
    let mut reader = TopologyReader::new();
    loop {
        let response = answer(service, &reader.request());
        if reader.accept(&response)? {
            return reader.finish();
        }
    }
}

#[test]
fn topologies_travel_over_the_wire() {
    for t in [Topology::default(), stock_topology(), big_topology(), largest_topology()] {
        let bytes = topology_to_bytes(&t).unwrap();
        assert!(bytes.len() <= 64);
        assert_eq!(topology_from_bytes(&bytes).unwrap(), t);
    }
    assert_eq!(topology_to_bytes(&Topology::default()).unwrap(), [0, 0]);
    assert_eq!(
        topology_to_bytes(&stock_topology()).unwrap(),
        [1, 2, 3, 1, 1, 1, 4, 5, 0x80, 0x84, 0x07]
    );
    assert_eq!(topology_to_bytes(&largest_topology()).unwrap().len(), 64);
}

#[test]
fn broken_topologies_do_not_decode() {
    let error = |bytes: &[u8]| topology_from_bytes(bytes).unwrap_err();
    let end = || WireError::Decode("Hit the end of buffer, expected more data".to_owned());
    assert_eq!(error(&[]), end());
    assert_eq!(error(&[1, 2, 3]), end());
    let mut crowded = vec![13];
    crowded.extend_from_slice(&[0; 60]);
    assert_eq!(error(&crowded), WireError::Decode("Serde Deserialization Error".to_owned()));
    assert_eq!(
        error(&[1, 2, 3, 2, 1, 0]),
        WireError::Decode("Found an Option discriminant that wasn't 0 or 1".to_owned())
    );
}

#[test]
fn profiles_travel_over_the_wire() {
    for p in [BoardProfile::pico(), BoardProfile { available: u64::MAX, reserved: u64::MAX }] {
        let bytes = profile_to_bytes(&p).unwrap();
        assert!(bytes.len() <= 20);
        assert_eq!(profile_from_bytes(&bytes).unwrap(), p);
    }
    assert_eq!(
        profile_to_bytes(&BoardProfile { available: 0x80, reserved: 1 }).unwrap(),
        [0x80, 0x01, 0x01]
    );
    assert_eq!(
        profile_from_bytes(&[0x80]).unwrap_err(),
        WireError::Decode("Hit the end of buffer, expected more data".to_owned())
    );
}

#[test]
fn firmware_info_travels_over_the_wire() {
    let info = sample_info();
    let bytes = info_to_bytes(&info).unwrap();
    assert_eq!(bytes, [PROTOCOL_VERSION, 0, 1, 0, 0, 30, 2, 4, 15, 32, 1, 1, 0]);
    assert_eq!(info_from_bytes(&bytes).unwrap(), info);
    let mut wrong_chip = bytes.clone();
    wrong_chip[4] = 2;
    let unknown = WireError::Decode("Serde Deserialization Error".to_owned());
    assert_eq!(info_from_bytes(&wrong_chip).unwrap_err(), unknown);
    // A wrong chip is noticed before what follows it.
    assert_eq!(info_from_bytes(&wrong_chip[..5]).unwrap_err(), unknown);
    let mut wrong_flag = bytes;
    wrong_flag[12] = 2;
    assert_eq!(
        info_from_bytes(&wrong_flag).unwrap_err(),
        WireError::Decode("Found a bool that wasn't 0 or 1".to_owned())
    );
}

#[test]
fn a_written_topology_is_stored() {
    let t = big_topology();
    let mut probe = service(stock_topology());
    let requests = set_topology(&t).unwrap();
    let diag = CtrlDiag::new();
    let (commit, chunks) = requests.split_last().unwrap();
    for request in chunks {
        assert!(request.len() <= 63);
        match probe.handle(request, &diag) {
            ServiceStep::Reply { response, after } => {
                assert_eq!(check(&response, CMD_SET_TOPOLOGY), Ok(()));
                assert_eq!(after, AfterResponse::Nothing);
            }
            _ => panic!("nothing is stored before the commit"),
        }
    }
    match probe.handle(commit, &diag) {
        ServiceStep::StoreTopology(stored) => assert_eq!(stored, t),
        _ => panic!("the commit stores"),
    }
    assert_eq!(probe.topology_stored(true), [CMD_COMMIT, STATUS_OK]);
    assert_eq!(probe.topology_stored(false), [CMD_COMMIT, STATUS_ERR_FLASH]);
}

#[test]
fn an_invalid_topology_is_refused_by_the_probe() {
    // Twelve probes exceed the state machines of an RP2040.
    let mut probe = service(stock_topology());
    let mut last = Vec::new();
    for request in set_topology(&largest_topology()).unwrap() {
        last = answer(&mut probe, &request);
    }
    assert_eq!(last, [CMD_COMMIT, STATUS_ERR_INVALID]);
    assert_eq!(
        check(&last, CMD_COMMIT).unwrap_err().message(),
        "probe reported error: topology failed validation (status 0x02)"
    );
}

#[test]
fn long_encodings_are_staged_in_chunks() {
    let encoded: Vec<u8> = (0..128u8).collect();
    let requests = stage_and_commit(&encoded).unwrap();
    assert_eq!(requests.len(), 4);
    assert_eq!(requests[0][..2], [CMD_SET_TOPOLOGY, 0]);
    assert_eq!(requests[0][2..], encoded[..61]);
    assert_eq!(requests[1][..2], [CMD_SET_TOPOLOGY, 61]);
    assert_eq!(requests[1][2..], encoded[61..122]);
    assert_eq!(requests[2][..2], [CMD_SET_TOPOLOGY, 122]);
    assert_eq!(requests[2][2..], encoded[122..]);
    assert_eq!(requests[3], [CMD_COMMIT, 128]);
    let empty = stage_and_commit(&[]).unwrap();
    assert_eq!(empty, [vec![CMD_SET_TOPOLOGY, 0], vec![CMD_COMMIT, 0]]);
    let error = stage_and_commit(&[0; 129]).unwrap_err();
    assert_eq!(error, SessionError::TooLong(129));
    assert_eq!(
        error.message(),
        "encoded topology is 129 bytes, firmware staging buffer holds 128"
    );
}

#[test]
fn active_topologies_are_read_in_chunks() {
    for t in [Topology::default(), stock_topology(), big_topology(), largest_topology()] {
        let mut probe = service(t.clone());
        assert_eq!(read_topology(&mut probe).unwrap(), t);
    }
    let mut probe = service(largest_topology());
    let first = answer(&mut probe, &[CMD_GET_TOPOLOGY]);
    assert_eq!(first.len(), 64);
    assert_eq!(first[..3], [CMD_GET_TOPOLOGY, STATUS_OK, 64]);
    let second = answer(&mut probe, &[CMD_GET_TOPOLOGY, 61]);
    assert_eq!(second.len(), 6);
    assert_eq!(answer(&mut probe, &[CMD_GET_TOPOLOGY, 64]).len(), 3);
    assert_eq!(
        answer(&mut probe, &[CMD_GET_TOPOLOGY, 65]),
        [CMD_GET_TOPOLOGY, STATUS_ERR_BAD_REQUEST]
    );
}

#[test]
fn staging_is_strict() {
    let mut probe = service(stock_topology());
    let set = CMD_SET_TOPOLOGY;
    assert_eq!(answer(&mut probe, &[set]), [set, STATUS_ERR_BAD_REQUEST]);
    assert_eq!(answer(&mut probe, &[set, 3, 1]), [set, STATUS_ERR_BAD_REQUEST]);
    assert_eq!(answer(&mut probe, &[set, 0, 1, 2]), [set, STATUS_OK]);
    assert_eq!(answer(&mut probe, &[set, 1, 9]), [set, STATUS_ERR_BAD_REQUEST]);
    assert_eq!(answer(&mut probe, &[set, 2, 3]), [set, STATUS_OK]);
    assert_eq!(answer(&mut probe, &[CMD_COMMIT]), [CMD_COMMIT, STATUS_ERR_BAD_REQUEST]);
    assert_eq!(answer(&mut probe, &[CMD_COMMIT, 2]), [CMD_COMMIT, STATUS_ERR_BAD_REQUEST]);
    assert_eq!(answer(&mut probe, &[CMD_COMMIT, 3]), [CMD_COMMIT, STATUS_ERR_DECODE]);
    // Offset 0 starts over.
    assert_eq!(answer(&mut probe, &[set, 0]), [set, STATUS_OK]);
    assert_eq!(answer(&mut probe, &[CMD_COMMIT, 0]), [CMD_COMMIT, STATUS_ERR_DECODE]);
    // 128 bytes fit, one more does not.
    let mut offset = 0u8;
    while offset < 120 {
        let mut request = vec![set, offset];
        request.extend_from_slice(&[7; 60]);
        assert_eq!(answer(&mut probe, &request), [set, STATUS_OK]);
        offset += 60;
    }
    let mut request = vec![set, 120];
    request.extend_from_slice(&[7; 9]);
    assert_eq!(answer(&mut probe, &request), [set, STATUS_ERR_BAD_REQUEST]);
    request.pop();
    assert_eq!(answer(&mut probe, &request), [set, STATUS_OK]);
}

#[test]
fn reboots_follow_the_response() {
    let mut probe = service(stock_topology());
    let diag = CtrlDiag::new();
    for (request, cmd, expected) in [
        (reboot_request(), CMD_REBOOT, AfterResponse::Reboot),
        (reboot_bootsel_request(), CMD_BOOTSEL, AfterResponse::Bootsel),
    ] {
        match probe.handle(&request, &diag) {
            ServiceStep::Reply { response, after } => {
                assert_eq!(check(&response, cmd), Ok(()));
                assert_eq!(after, expected);
            }
            _ => panic!("a reboot stores nothing"),
        }
    }
}

#[test]
fn firmware_info_is_reported() {
    let mut probe = service(stock_topology());
    let response = answer(&mut probe, &info_request());
    assert_eq!(info_request(), [CMD_INFO]);
    assert_eq!(info(&response).unwrap(), sample_info());
}

#[test]
fn a_stored_profile_takes_effect() {
    let mut probe = service(stock_topology());
    assert_eq!(get_profile(&answer(&mut probe, &get_profile_request())), Ok(BoardProfile::pico()));
    let zero = BoardProfile { available: 0x3C01_FFFF, reserved: 1 << 16 };
    let response = answer(&mut probe, &set_profile_request(&zero).unwrap());
    assert_eq!(response, [CMD_SET_PROFILE, STATUS_OK]);
    assert_eq!(get_profile(&answer(&mut probe, &get_profile_request())), Ok(zero));
    // GP20 is available on a Pico, but not with the new profile.
    let mut t = Topology::default();
    t.probes.push(ProbeConfig { swclk: 20, swdio: 3, reset: None }).unwrap();
    let mut last = Vec::new();
    for request in set_topology(&t).unwrap() {
        last = answer(&mut probe, &request);
    }
    assert_eq!(last, [CMD_COMMIT, STATUS_ERR_INVALID]);
}

#[test]
fn bad_profiles_are_refused() {
    let mut probe = service(stock_topology());
    assert_eq!(answer(&mut probe, &[CMD_SET_PROFILE]), [CMD_SET_PROFILE, STATUS_ERR_DECODE]);
    let empty = set_profile_request(&BoardProfile { available: 0, reserved: 0 }).unwrap();
    assert_eq!(answer(&mut probe, &empty), [CMD_SET_PROFILE, STATUS_ERR_INVALID]);
    let pico = BoardProfile::pico();
    assert_eq!(probe.profile_stored(pico, false), [CMD_SET_PROFILE, STATUS_ERR_FLASH]);
}

#[test]
fn unknown_commands_are_refused() {
    let mut probe = service(stock_topology());
    for cmd in [0x88u8, 0x90, 0x9E, 0xFF] {
        assert_eq!(answer(&mut probe, &[cmd]), [cmd, STATUS_ERR_BAD_REQUEST]);
    }
}

#[test]
fn control_requests_are_dumped() {
    let mut probe = service(stock_topology());
    let mut diag = CtrlDiag::new();
    let mut request = ControlRequest {
        request_type: RequestType::Vendor,
        recipient: Recipient::Interface,
        request: 0,
        value: 0x1234,
        index: 0x0506,
    };
    for n in 0..8u8 {
        request.request = n;
        diag.record(n % 2 == 0, &request);
    }
    match probe.handle(&[CMD_CTRL_DIAG], &diag) {
        ServiceStep::Reply { response, .. } => {
            assert_eq!(response.len(), 3 + 6 * 8);
            assert_eq!(response[..3], [CMD_CTRL_DIAG, STATUS_OK, 6]);
            // The two oldest are gone.
            assert_eq!(response[3..11], [0x1B, 2, 1, 2, 0x34, 0x12, 0x06, 0x05]);
            assert_eq!(response[43..51], [0x0B, 2, 1, 7, 0x34, 0x12, 0x06, 0x05]);
        }
        _ => panic!("a dump stores nothing"),
    }
}

#[test]
fn responses_are_checked() {
    assert_eq!(check(&[CMD_INFO, STATUS_OK], CMD_INFO), Ok(()));
    let short = check(&[CMD_INFO], CMD_INFO).unwrap_err();
    assert_eq!(short, SessionError::ShortResponse(1));
    assert_eq!(short.message(), "short response (1 bytes)");
    let echo = check(&[0x8A, STATUS_OK], CMD_INFO).unwrap_err();
    assert_eq!(echo, SessionError::WrongEcho { got: 0x8A, expected: 0x80 });
    assert_eq!(echo.message(), "response command 0x8A does not echo request 0x80");
    let status = check(&[CMD_INFO, 0x2F], CMD_INFO).unwrap_err();
    assert_eq!(status.message(), "probe reported error: unknown status (status 0x2F)");
    assert_eq!(
        info(&[CMD_INFO, STATUS_OK, 1]).unwrap_err(),
        SessionError::Decode(
            Payload::FirmwareInfo,
            "Hit the end of buffer, expected more data".to_owned()
        )
    );
    assert_eq!(
        get_profile(&[CMD_GET_PROFILE, STATUS_OK]).unwrap_err(),
        SessionError::Decode(
            Payload::BoardProfile,
            "Hit the end of buffer, expected more data".to_owned()
        )
    );
}

#[test]
fn statuses_have_words() {
    assert_eq!(status_str(STATUS_OK), "ok");
    assert_eq!(status_str(STATUS_ERR_DECODE), "payload failed to decode");
    assert_eq!(status_str(STATUS_ERR_INVALID), "topology failed validation");
    assert_eq!(status_str(STATUS_ERR_FLASH), "flash write failed");
    assert_eq!(status_str(STATUS_ERR_BAD_REQUEST), "unknown command or malformed arguments");
    assert_eq!(status_str(0x77), "unknown status");
}

#[test]
fn broken_topology_responses_are_noticed() {
    let get = CMD_GET_TOPOLOGY;
    let mut reader = TopologyReader::new();
    let short = reader.accept(&[get, STATUS_OK]).unwrap_err();
    assert_eq!(short, SessionError::ShortTopology(2));
    assert_eq!(short.message(), "short GET_TOPOLOGY response (2 bytes)");
    let empty = reader.accept(&[get, STATUS_OK, 5]).unwrap_err();
    assert_eq!(empty, SessionError::EmptyChunk);
    assert_eq!(
        empty.message(),
        "probe returned an empty chunk before the topology was complete"
    );
    assert_eq!(reader.accept(&[get, STATUS_OK, 4, 0]), Ok(false));
    assert_eq!(reader.request(), [get, 1]);
    // More than the total is cut off.
    assert_eq!(reader.accept(&[get, STATUS_OK, 2, 0, 9, 9]), Ok(true));
    assert_eq!(reader.finish().unwrap(), Topology::default());

    let mut reader = TopologyReader::new();
    assert_eq!(reader.accept(&[get, STATUS_OK, 1, 1]), Ok(true));
    let broken = reader.finish().unwrap_err();
    assert_eq!(broken.message(), "decode Topology");
    assert_eq!(
        broken,
        SessionError::Decode(
            Payload::Topology,
            "Hit the end of buffer, expected more data".to_owned()
        )
    );
}

#[test]
fn stored_items_load_back() {
    let (key, bytes) = store_item(&CommitItem::Topology(big_topology())).unwrap();
    assert_eq!(key, KEY_TOPOLOGY);
    assert_eq!(load_topology(Some(bytes)), Some(big_topology()));
    let (key, bytes) = store_item(&CommitItem::Profile(BoardProfile::pico())).unwrap();
    assert_eq!(key, KEY_PROFILE);
    assert_eq!(load_profile(Some(bytes)), Some(BoardProfile::pico()));
    assert_eq!(load_topology(None), None);
    assert_eq!(load_topology(Some(vec![1])), None);
    assert_eq!(load_profile(None), None);
    assert_eq!(load_profile(Some(vec![])), None);
}

#[test]
fn config_lives_in_the_last_two_sectors() {
    assert_eq!(config_range(flash_size(Chip::Rp2040)), (0x1F_E000, 0x20_0000));
    assert_eq!(config_range(flash_size(Chip::Rp2350)), (0x3F_E000, 0x40_0000));
}

#[test]
fn boot_uses_the_stored_topology_if_it_is_valid() {
    let pico = BoardProfile::pico();
    assert_eq!(boot_profile(None), pico);
    let zero = BoardProfile { available: 0x3C01_FFFF, reserved: 1 << 16 };
    assert_eq!(boot_profile(Some(zero)), zero);
    let (t, fault) = boot_topology(Some(big_topology()), &rp2040(), &pico);
    assert_eq!((t, fault), (big_topology(), false));
    let (t, fault) = boot_topology(Some(largest_topology()), &rp2040(), &pico);
    assert_eq!((t, fault), (stock_topology(), true));
    let (t, fault) = boot_topology(None, &rp2040(), &pico);
    assert_eq!((t, fault), (stock_topology(), true));
}

#[test]
fn the_stock_topology_fits_every_chip() {
    for chip in [rp2040(), rp2350a(), rp2350b()] {
        assert_eq!(stock_topology().validate(&chip, &BoardProfile::pico()), Ok(()));
    }
    let info = firmware_info(Chip::Rp2350, rp2350a(), (1, 2, 3), &stock_topology(), true);
    assert_eq!((info.active_probes, info.active_uarts), (1, 1));
    assert_eq!(info.protocol_version, PROTOCOL_VERSION);
    assert_eq!(info.firmware_version, (1, 2, 3));
    assert!(info.config_fault);
}

/// Send packets to a probe that answers each with `reply`, as long as there are any.
fn converse(
    requests: Vec<Vec<u8>>,
    mut reply: impl FnMut(&[u8]) -> Vec<u8>,
) -> (Vec<Vec<u8>>, Result<(), SessionError>) {
    let mut commands = CommandSequence::new(requests);
    let mut sent = Vec::new();
    let mut answer: Option<Vec<u8>> = None;
    loop {
        match commands.next(answer.as_deref()) {
            Ok(Some(packet)) => {
                answer = Some(reply(&packet));
                sent.push(packet);
            }
            Ok(None) => return (sent, Ok(())),
            Err(e) => {
                // Nothing comes after a bad response.
                assert_eq!(commands.next(None), Ok(None));
                assert_eq!(commands.next(Some(&[CMD_COMMIT, STATUS_OK])), Ok(None));
                return (sent, Err(e));
            }
        }
    }
}

#[test]
fn all_packets_are_sent_while_responses_are_good() {
    let requests = set_topology(&largest_topology()).unwrap();
    assert_eq!(requests.len(), 3);
    let (sent, result) = converse(requests.clone(), |packet| vec![packet[0], STATUS_OK]);
    assert_eq!(sent, requests);
    assert_eq!(result, Ok(()));

    let mut probe = service(stock_topology());
    let (_, result) = converse(set_topology(&big_topology()).unwrap(), |packet| {
        answer(&mut probe, packet)
    });
    assert_eq!(result, Ok(()));
}

#[test]
fn a_bad_response_ends_the_write() {
    let requests = set_topology(&largest_topology()).unwrap();
    for k in 0..requests.len() {
        let mut n = 0;
        let (sent, result) = converse(requests.clone(), |packet| {
            n += 1;
            vec![packet[0], if n == k + 1 { STATUS_ERR_FLASH } else { STATUS_OK }]
        });
        assert_eq!(sent, requests[..k + 1]);
        assert_eq!(result, Err(SessionError::Status(STATUS_ERR_FLASH)));
    }
    // Another command's echo, and no response at all.
    let (sent, result) = converse(requests.clone(), |_| vec![CMD_COMMIT, STATUS_OK]);
    assert_eq!(sent, requests[..1]);
    assert_eq!(
        result,
        Err(SessionError::WrongEcho { got: CMD_COMMIT, expected: CMD_SET_TOPOLOGY })
    );
    let mut commands = CommandSequence::new(requests);
    assert!(matches!(commands.next(None), Ok(Some(_))));
    assert_eq!(commands.next(None), Err(SessionError::ShortResponse(0)));
    assert_eq!(commands.next(None), Ok(None));
}

#[test]
fn chunks_carry_the_encoding() {
    let encoded: Vec<u8> = (0..128).collect();
    let requests = stage_and_commit(&encoded).unwrap();
    let (commit, sets) = requests.split_last().unwrap();
    assert_eq!(commit, &[CMD_COMMIT, 128]);
    let mut carried: Vec<u8> = Vec::new();
    for set in sets {
        assert_eq!(set[0], CMD_SET_TOPOLOGY);
        assert_eq!(set[1] as usize, carried.len());
        assert!(set.len() <= 63);
        carried.extend_from_slice(&set[2..]);
    }
    assert_eq!(carried, encoded);
}
