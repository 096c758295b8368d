//! Pin-range strings, and the readable forms of topologies and profiles.

use rustprobe::board_toml::{
    format_pin_ranges, parse_pin, parse_pin_ranges, PinRangeError, TomlBoardProfile,
};
use rustprobe::config::{BoardProfile, Topology};
use rustprobe::topology_toml::{TomlProbe, TomlTopology, TomlUart};

#[test]
fn parses_ranges_and_singles() {
    assert_eq!(parse_pin_ranges("").unwrap(), 0);
    assert_eq!(parse_pin_ranges("0").unwrap(), 1);
    assert_eq!(parse_pin_ranges("0-3").unwrap(), 0b1111);
    assert_eq!(parse_pin_ranges("1, 4-5").unwrap(), 0b110010);
    assert_eq!(parse_pin_ranges("63").unwrap(), 1u64 << 63);
}

#[test]
fn rejects_bad_ranges() {
    assert!(parse_pin_ranges("5-2").is_err());
    assert!(parse_pin_ranges("64").is_err());
    assert!(parse_pin_ranges("abc").is_err());
    assert!(parse_pin_ranges("1--3").is_err());
}

#[test]
fn formats_ranges() {
    assert_eq!(format_pin_ranges(0), "");
    assert_eq!(format_pin_ranges(0b1), "0");
    assert_eq!(format_pin_ranges(0b1111), "0-3");
    assert_eq!(format_pin_ranges(0b110010), "1,4-5");
    assert_eq!(format_pin_ranges(1u64 << 63), "63");
}

fn profile_of(text: &str) -> TomlBoardProfile {
    let table: toml::Table = toml::from_str(text).unwrap();
    TomlBoardProfile {
        available: table["available"].as_str().unwrap().to_owned(),
        reserved: match table.get("reserved") {
            Some(reserved) => reserved.as_str().unwrap().to_owned(),
            None => String::new(),
        },
    }
}

fn profile_text(profile: &TomlBoardProfile) -> String {
    let mut table = toml::Table::new();
    table.insert("available".to_owned(), toml::Value::from(profile.available.as_str()));
    table.insert("reserved".to_owned(), toml::Value::from(profile.reserved.as_str()));
    toml::to_string(&table).unwrap()
}

#[test]
fn round_trips_the_pico_profile() {
    let toml_text = profile_text(&TomlBoardProfile::from_profile(&BoardProfile::pico()));
    let back: TomlBoardProfile = profile_of(&toml_text);
    assert_eq!(back.into_profile().unwrap(), BoardProfile::pico());
}

#[test]
fn pico_profile_reads_as_expected() {
    let t = TomlBoardProfile::from_profile(&BoardProfile::pico());
    assert_eq!(t.available, "0-28");
    assert_eq!(t.reserved, "23-25,29");
}

fn number(value: &toml::Value) -> i64 {
    value.as_integer().unwrap()
}

fn topology_of(text: &str) -> TomlTopology {
    let table: toml::Table = toml::from_str(text).unwrap();
    let mut out = TomlTopology::default();
    for p in table["probes"].as_array().unwrap() {
        out.probes.push(TomlProbe {
            swclk: number(&p["swclk"]) as u8,
            swdio: number(&p["swdio"]) as u8,
            reset: p.get("reset").map(|r| number(r) as u8),
        });
    }
    for u in table["uarts"].as_array().unwrap() {
        out.uarts.push(TomlUart {
            tx: number(&u["tx"]) as u8,
            rx: number(&u["rx"]) as u8,
            baud: number(&u["baud"]) as u32,
        });
    }
    out
}

fn topology_text(topology: &TomlTopology) -> String {
    let mut probes = Vec::new();
    for p in &topology.probes {
        let mut table = toml::Table::new();
        table.insert("swclk".to_owned(), toml::Value::Integer(p.swclk as i64));
        table.insert("swdio".to_owned(), toml::Value::Integer(p.swdio as i64));
        if let Some(reset) = p.reset {
            table.insert("reset".to_owned(), toml::Value::Integer(reset as i64));
        }
        probes.push(toml::Value::Table(table));
    }
    let mut uarts = Vec::new();
    for u in &topology.uarts {
        let mut table = toml::Table::new();
        table.insert("tx".to_owned(), toml::Value::Integer(u.tx as i64));
        table.insert("rx".to_owned(), toml::Value::Integer(u.rx as i64));
        table.insert("baud".to_owned(), toml::Value::Integer(u.baud as i64));
        uarts.push(toml::Value::Table(table));
    }
    let mut whole = toml::Table::new();
    whole.insert("probes".to_owned(), toml::Value::Array(probes));
    whole.insert("uarts".to_owned(), toml::Value::Array(uarts));
    toml::to_string(&whole).unwrap()
}

#[test]
fn round_trip_through_toml() {
    let text = "\
[[probes]]
swclk = 2
swdio = 3
reset = 1

[[uarts]]
tx = 4
rx = 5
baud = 115200
";
    let parsed: TomlTopology = topology_of(text);
    let topo = parsed.into_topology().unwrap();
    assert_eq!(topo.probes.len(), 1);
    assert_eq!(topo.probes[0].reset, Some(1));
    assert_eq!(topo.uarts[0].baud, 115200);

    let back = topology_text(&TomlTopology::from_topology(&topo));
    let reparsed: Topology = topology_of(&back).into_topology().unwrap();
    assert_eq!(topo, reparsed);
}

#[test]
fn white_space_and_empty_parts_are_skipped() {
    assert_eq!(parse_pin_ranges("  ").unwrap(), 0);
    assert_eq!(parse_pin_ranges(",,").unwrap(), 0);
    assert_eq!(parse_pin_ranges(" 0 - 2 ,\t7\n,").unwrap(), 0b1000_0111);
    assert_eq!(parse_pin_ranges("\u{3000}5\u{a0}").unwrap(), 1 << 5);
    assert_eq!(parse_pin_ranges("+7,007").unwrap(), 1 << 7);
    assert_eq!(parse_pin_ranges("0-63").unwrap(), u64::MAX);
}

#[test]
fn pin_range_errors_say_what_is_wrong() {
    let message = |text: &str| parse_pin_ranges(text).unwrap_err().message();
    assert_eq!(message("5-2"), "descending pin range \"5-2\"");
    assert_eq!(message("64"), "pin 64 out of range (max 63)");
    assert_eq!(message("0-255"), "pin 255 out of range (max 63)");
    assert_eq!(message("abc"), "invalid pin number \"abc\"");
    assert_eq!(message("256"), "invalid pin number \"256\"");
    assert_eq!(message("1--3"), "invalid pin number \"-3\"");
    assert_eq!(message("3-"), "invalid pin number \"\"");
    assert_eq!(message("+"), "invalid pin number \"+\"");
    assert!(matches!(parse_pin_ranges("5-2"), Err(PinRangeError::Descending(_))));
    assert!(matches!(parse_pin_ranges("64"), Err(PinRangeError::OutOfRange(64))));
    assert!(matches!(parse_pin_ranges("x"), Err(PinRangeError::InvalidPin(_))));
}

#[test]
fn single_pins_parse() {
    assert_eq!(parse_pin(" 12 ").unwrap(), 12);
    assert_eq!(parse_pin("63").unwrap(), 63);
    assert_eq!(parse_pin(" x ").unwrap_err().message(), "invalid pin number \" x \"");
    assert!(parse_pin("").is_err());
}

#[test]
fn masks_read_back_from_their_text() {
    let mut mask = 0x9E37_79B9_7F4A_7C15u64;
    for _ in 0..200 {
        assert_eq!(parse_pin_ranges(&format_pin_ranges(mask)).unwrap(), mask);
        mask = mask.rotate_left(7).wrapping_mul(0x2545_F491_4F6C_DD1D);
    }
    assert_eq!(parse_pin_ranges(&format_pin_ranges(u64::MAX)).unwrap(), u64::MAX);
    assert_eq!(format_pin_ranges(u64::MAX), "0-63");
}

#[test]
fn profiles_read_back_from_their_text() {
    let profile = BoardProfile { available: 0x3C01_FFFF, reserved: 1 << 16 };
    let readable = TomlBoardProfile::from_profile(&profile);
    assert_eq!(readable.available, "0-16,26-29");
    assert_eq!(readable.reserved, "16");
    assert_eq!(readable.into_profile().unwrap(), profile);
}

#[test]
fn a_wrong_profile_reports_the_first_error() {
    let both = TomlBoardProfile { available: "x".to_owned(), reserved: "y".to_owned() };
    assert_eq!(both.into_profile().unwrap_err().message(), "invalid pin number \"x\"");
    let second = TomlBoardProfile { available: "0".to_owned(), reserved: "70".to_owned() };
    assert_eq!(second.into_profile().unwrap_err().message(), "pin 70 out of range (max 63)");
}

#[test]
fn oversized_topologies_are_rejected() {
    let mut t = TomlTopology::default();
    for i in 0..12u8 {
        t.probes.push(TomlProbe { swclk: i, swdio: i, reset: None });
    }
    for _ in 0..2 {
        t.uarts.push(TomlUart { tx: 0, rx: 1, baud: 1 });
    }
    let full = TomlTopology { probes: t.probes.clone(), uarts: t.uarts.clone() };
    assert_eq!(full.into_topology().unwrap().probes.len(), 12);

    t.uarts.push(TomlUart { tx: 0, rx: 1, baud: 1 });
    let uarts = TomlTopology { probes: t.probes.clone(), uarts: t.uarts.clone() };
    assert_eq!(uarts.into_topology().unwrap_err().message(), "too many uarts (max 2)");

    t.probes.push(TomlProbe { swclk: 0, swdio: 1, reset: None });
    assert_eq!(t.into_topology().unwrap_err().message(), "too many probes (max 12)");
}

#[test]
fn joined_ranges_name_both() {
    let texts = ["", "0", "1-3", " 5 , 7-9", "63", ",,2", "9-x", "64", "5-2"];
    for a in texts {
        for b in texts {
            let joined = parse_pin_ranges(&format!("{},{}", a, b));
            match (parse_pin_ranges(a), parse_pin_ranges(b)) {
                (Ok(x), Ok(y)) => assert_eq!(joined.unwrap(), x | y),
                (Err(e), _) => assert_eq!(joined.unwrap_err().message(), e.message()),
                (_, Err(e)) => assert_eq!(joined.unwrap_err().message(), e.message()),
            }
        }
    }
}
