//! Reports, pin lists and encodings for the browser front end.

use rustprobe::board_toml::TomlBoardProfile;
use rustprobe::config::{rp2350a, ChipLimits, ValidationError};
use rustprobe::protocol::{Chip, FirmwareInfo, PROTOCOL_VERSION};
use rustprobe::topology_toml::{TomlProbe, TomlTopology, TomlUart};
use rustprobe::web;
use rustprobe::wire::info_to_bytes;

const TOPO_JSON: &str = r#"{"probes":[{"swclk":2,"swdio":3,"reset":1}],"uarts":[{"tx":4,"rx":5,"baud":115200}]}"#;
const ZERO_PROFILE: &str = r#"{"available":"0-16,26-29","reserved":"16"}"#;

fn byte(value: &serde_json::Value) -> u8 {
    value.as_u64().unwrap() as u8
}

fn topology_of(json: &str) -> TomlTopology {
    let value: serde_json::Value = serde_json::from_str(json).unwrap();
    let mut out = TomlTopology::default();
    for p in value["probes"].as_array().unwrap() {
        out.probes.push(TomlProbe {
            swclk: byte(&p["swclk"]),
            swdio: byte(&p["swdio"]),
            reset: p.get("reset").map(byte),
        });
    }
    for u in value["uarts"].as_array().unwrap() {
        out.uarts.push(TomlUart {
            tx: byte(&u["tx"]),
            rx: byte(&u["rx"]),
            baud: u["baud"].as_u64().unwrap() as u32,
        });
    }
    out
}

fn profile_of(json: &str) -> TomlBoardProfile {
    let value: serde_json::Value = serde_json::from_str(json).unwrap();
    TomlBoardProfile {
        available: value["available"].as_str().unwrap().to_owned(),
        reserved: value["reserved"].as_str().unwrap().to_owned(),
    }
}

fn topology_to_toml(topology: &TomlTopology) -> String {
    let mut probes = Vec::new();
    for p in &topology.probes {
        let mut table = toml::Table::new();
        table.insert("swclk".to_owned(), toml::Value::Integer(p.swclk as i64));
        table.insert("swdio".to_owned(), toml::Value::Integer(p.swdio as i64));
        if let Some(reset) = p.reset {
            table.insert("reset".to_owned(), toml::Value::Integer(reset as i64));
        }
        probes.push(toml::Value::Table(table));
    }
    let mut uarts = Vec::new();
    for u in &topology.uarts {
        let mut table = toml::Table::new();
        table.insert("tx".to_owned(), toml::Value::Integer(u.tx as i64));
        table.insert("rx".to_owned(), toml::Value::Integer(u.rx as i64));
        table.insert("baud".to_owned(), toml::Value::Integer(u.baud as i64));
        uarts.push(toml::Value::Table(table));
    }
    let mut whole = toml::Table::new();
    whole.insert("probes".to_owned(), toml::Value::Array(probes));
    whole.insert("uarts".to_owned(), toml::Value::Array(uarts));
    toml::to_string(&whole).unwrap()
}

fn number(value: &toml::Value) -> i64 {
    value.as_integer().unwrap()
}

fn topology_from_toml(text: &str) -> TomlTopology {
    let table: toml::Table = toml::from_str(text).unwrap();
    let mut out = TomlTopology::default();
    for p in table["probes"].as_array().unwrap() {
        out.probes.push(TomlProbe {
            swclk: number(&p["swclk"]) as u8,
            swdio: number(&p["swdio"]) as u8,
            reset: p.get("reset").map(|r| number(r) as u8),
        });
    }
    for u in table["uarts"].as_array().unwrap() {
        out.uarts.push(TomlUart {
            tx: number(&u["tx"]) as u8,
            rx: number(&u["rx"]) as u8,
            baud: number(&u["baud"]) as u32,
        });
    }
    out
}

fn profile_to_toml(profile: &TomlBoardProfile) -> String {
    let mut table = toml::Table::new();
    table.insert("available".to_owned(), toml::Value::from(profile.available.as_str()));
    table.insert("reserved".to_owned(), toml::Value::from(profile.reserved.as_str()));
    toml::to_string(&table).unwrap()
}

fn profile_from_toml(text: &str) -> TomlBoardProfile {
    let table: toml::Table = toml::from_str(text).unwrap();
    TomlBoardProfile {
        available: table["available"].as_str().unwrap().to_owned(),
        reserved: table["reserved"].as_str().unwrap().to_owned(),
    }
}

/// Firmware information as JSON text.
fn info_to_json(info: &FirmwareInfo) -> String {
    let mut limits = serde_json::Map::new();
    limits.insert("gpio_count".to_owned(), serde_json::Value::from(info.limits.gpio_count));
    limits.insert("pio_blocks".to_owned(), serde_json::Value::from(info.limits.pio_blocks));
    limits.insert("sms_per_block".to_owned(), serde_json::Value::from(info.limits.sms_per_block));
    let mut whole = serde_json::Map::new();
    whole.insert("chip".to_owned(), serde_json::Value::from(format!("{:?}", info.chip)));
    whole.insert("active_probes".to_owned(), serde_json::Value::from(info.active_probes));
    whole.insert("limits".to_owned(), serde_json::Value::Object(limits));
    serde_json::to_string(&whole).unwrap()
}

fn limits() -> ChipLimits {
    rp2350a()
}

#[test]
fn topology_round_trips_json_postcard_toml() {
    let bytes = web::encode_topology(topology_of(TOPO_JSON)).unwrap();
    let back = web::decode_topology(&bytes).unwrap();
    assert_eq!(web::encode_topology(back).unwrap(), bytes);

    let topo = topology_of(TOPO_JSON).into_topology().unwrap();
    let toml_text = topology_to_toml(&TomlTopology::from_topology(&topo));
    let from_toml = topology_from_toml(&toml_text);
    assert_eq!(web::encode_topology(from_toml).unwrap(), bytes);
}

#[test]
fn profile_round_trips() {
    let bytes = web::encode_profile(profile_of(ZERO_PROFILE)).unwrap();
    let back = web::decode_profile(&bytes).unwrap();
    assert_eq!(back.available, "0-16,26-29");
    assert_eq!(back.reserved, "16");
    let profile = profile_of(ZERO_PROFILE).into_profile().unwrap();
    let toml_text = profile_to_toml(&TomlBoardProfile::from_profile(&profile));
    let from_toml = profile_from_toml(&toml_text).into_profile().unwrap();
    let again = TomlBoardProfile::from_profile(&from_toml);
    assert_eq!((&again.available, &again.reserved), (&back.available, &back.reserved));
    assert_eq!(web::encode_profile(back).unwrap(), bytes);
}

#[test]
fn validation_reports_friendly_errors() {
    assert_eq!(
        web::validate_topology(topology_of(TOPO_JSON), &limits(), profile_of(ZERO_PROFILE))
            .unwrap(),
        "null"
    );
    // GP20 is not brought out on the RP2350-Zero.
    let bad = r#"{"probes":[{"swclk":20,"swdio":3}],"uarts":[]}"#;
    let err: serde_json::Value = serde_json::from_str(
        &web::validate_topology(topology_of(bad), &limits(), profile_of(ZERO_PROFILE)).unwrap(),
    )
    .unwrap();
    assert_eq!(err["code"], "PinUnavailable");
    assert_eq!(err["pin"], 20);
}

#[test]
fn info_decodes() {
    let info = FirmwareInfo {
        protocol_version: PROTOCOL_VERSION,
        firmware_version: (0, 1, 0),
        chip: Chip::Rp2350,
        limits: rp2350a(),
        active_probes: 9,
        active_uarts: 1,
        config_fault: false,
    };
    let bytes = info_to_bytes(&info).unwrap();
    let back = web::decode_info(&bytes).unwrap();
    assert_eq!(back, info);
    let json: serde_json::Value = serde_json::from_str(&info_to_json(&back)).unwrap();
    assert_eq!(json["chip"], "Rp2350");
    assert_eq!(json["active_probes"], 9);
    assert_eq!(json["limits"]["pio_blocks"], 3);
}

#[test]
fn pin_range_helpers() {
    assert_eq!(web::pins_in_ranges("0-2,29").unwrap(), "[0,1,2,29]");
    assert_eq!(web::pins_to_ranges("[0,1,2,29]").unwrap(), "0-2,29");
}

#[test]
fn pin_list_edges() {
    assert_eq!(web::pins_in_ranges("").unwrap(), "[]");
    assert_eq!(web::pins_in_ranges("9-x").unwrap_err(), "invalid pin number \"x\"");
    assert_eq!(web::pins_to_ranges(" [ 63 , 0, 63 ] ").unwrap(), "0,63");
    assert_eq!(web::pins_to_ranges("[]").unwrap(), "");
    assert_eq!(web::pins_to_ranges("[1,64,200]").unwrap_err(), "pin 64 out of range (max 63)");
    let error = web::pins_to_ranges("[1,").unwrap_err();
    assert!(error.starts_with("parse pin array: EOF while parsing"), "{}", error);
    assert!(web::pins_to_ranges("[256]").is_err());
    assert!(web::pins_to_ranges("{}").is_err());
    let all = web::pins_in_ranges("0-63").unwrap();
    assert_eq!(web::pins_to_ranges(&all).unwrap(), "0-63");
}

#[test]
fn reports_have_code_message_and_pin() {
    let report = web::validation_json(Err(ValidationError::PinConflict(3)));
    assert_eq!(report, "{\"code\":\"PinConflict\",\"message\":\"GPIO3 is assigned twice\",\"pin\":3}");
    let report = web::validation_json(Err(ValidationError::TooManyUarts));
    assert_eq!(
        report,
        "{\"code\":\"TooManyUarts\",\"message\":\"At most 2 UART bridges (hardware UARTs)\",\"pin\":null}"
    );
    assert_eq!(web::validation_json(Ok(())), "null");
}

#[test]
fn every_error_has_words() {
    let cases = [
        (
            ValidationError::TooManyProbes,
            "TooManyProbes",
            None,
            "Not enough PIO state machines: each probe needs one, plus one for autobaud when any UART is configured",
        ),
        (
            ValidationError::TooManyUarts,
            "TooManyUarts",
            None,
            "At most 2 UART bridges (hardware UARTs)",
        ),
        (
            ValidationError::EndpointBudget,
            "EndpointBudget",
            None,
            "USB endpoint budget exceeded (IN: probes + 2×UARTs, OUT: probes + UARTs, each ≤ 15)",
        ),
        (
            ValidationError::PinUnavailable(7),
            "PinUnavailable",
            Some(7),
            "GPIO7 is not assignable on this board (missing, reserved, or beyond the chip's pins)",
        ),
        (ValidationError::PinConflict(12), "PinConflict", Some(12), "GPIO12 is assigned twice"),
        (
            ValidationError::PioWindow,
            "PioWindow",
            None,
            "Probes cannot be grouped into PIO blocks whose pins fit one GPIOBASE window",
        ),
        (
            ValidationError::UartPinMux(2),
            "UartPinMux",
            Some(2),
            "TX GPIO2 and the RX pin do not select the same hardware UART (UART0: TX 0/12/16/28, RX 1/13/17/29; UART1: TX 4/8/20/24, RX 5/9/21/25)",
        ),
        (
            ValidationError::UartInstanceConflict(1),
            "UartInstanceConflict",
            Some(1),
            "Two UART bridges both resolve to hardware UART1",
        ),
        (
            ValidationError::ProfilePinRange,
            "ProfilePinRange",
            None,
            "Profile marks pins available that do not exist on this chip",
        ),
        (
            ValidationError::ProfileEmpty,
            "ProfileEmpty",
            None,
            "Profile leaves no pin assignable (available minus reserved is empty)",
        ),
    ];
    for (error, code, pin, message) in cases {
        assert_eq!(web::error_code(&error), (code, pin));
        assert_eq!(web::error_message(&error), message);
        let value: serde_json::Value =
            serde_json::from_str(&web::validation_json(Err(error))).unwrap();
        assert_eq!(value["code"], code);
        assert_eq!(value["message"], message);
        assert_eq!(value["pin"].as_u64(), pin.map(u64::from));
    }
}

#[test]
fn unreadable_input_is_reported_before_validation() {
    let mut big = topology_of(TOPO_JSON);
    for _ in 0..2 {
        big.uarts.push(TomlUart { tx: 0, rx: 1, baud: 1 });
    }
    let wrong = TomlBoardProfile { available: "a".to_owned(), reserved: String::new() };
    assert_eq!(
        web::validate_topology(big, &limits(), wrong).unwrap_err(),
        "too many uarts (max 2)"
    );
    let wrong = TomlBoardProfile { available: "a".to_owned(), reserved: String::new() };
    assert_eq!(
        web::validate_topology(topology_of(TOPO_JSON), &limits(), wrong).unwrap_err(),
        "invalid pin number \"a\""
    );
    let wrong = TomlBoardProfile { available: "4-1".to_owned(), reserved: String::new() };
    assert_eq!(
        web::validate_profile(wrong, &limits()).unwrap_err(),
        "descending pin range \"4-1\""
    );
}

#[test]
fn profiles_are_reported_on() {
    assert_eq!(web::validate_profile(profile_of(ZERO_PROFILE), &limits()).unwrap(), "null");
    let beyond = TomlBoardProfile { available: "0-40".to_owned(), reserved: String::new() };
    let report = web::validate_profile(beyond, &limits()).unwrap();
    let value: serde_json::Value = serde_json::from_str(&report).unwrap();
    assert_eq!(value["code"], "ProfilePinRange");
    let empty = TomlBoardProfile { available: String::new(), reserved: String::new() };
    let report = web::validate_profile(empty, &limits()).unwrap();
    let value: serde_json::Value = serde_json::from_str(&report).unwrap();
    assert_eq!(value["code"], "ProfileEmpty");
}

#[test]
fn broken_bytes_do_not_decode() {
    assert_eq!(
        web::decode_topology(&[9]).unwrap_err(),
        "decode Topology: Hit the end of buffer, expected more data"
    );
    assert_eq!(
        web::decode_profile(&[0xFF; 11]).unwrap_err(),
        "decode BoardProfile: Found a varint that didn't terminate. \
         Is the usize too big for this platform?"
    );
    assert_eq!(
        web::decode_info(&[2, 0, 1, 0, 7]).unwrap_err(),
        "decode FirmwareInfo: Serde Deserialization Error"
    );
}

#[test]
fn constants_are_listed() {
    assert_eq!(
        web::constants(),
        [
            r#"{"cmd":{"bootsel":133,"commit":131,"get_profile":134,"get_topology":129,"#,
            r#""info":128,"reboot":132,"set_profile":135,"set_topology":130},"#,
            r#""profile_buf_len":20,"protocol_version":2,"#,
            r#""status":{"err_bad_request":4,"err_decode":1,"err_flash":3,"err_invalid":2,"ok":0},"#,
            r#""topology_buf_len":128}"#,
        ]
        .concat()
    );
}
