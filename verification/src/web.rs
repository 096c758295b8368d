//! What the browser front end shows: validation reports as JSON, pin lists, and the
//! wire form of readable configurations.

use vstd::prelude::*;
use vstd::string::*;

use crate::bits;
use crate::board_toml;
use crate::board_toml::{
    format_pin_ranges, parse_pin_ranges, PinRangeErrorSpec, TomlBoardProfile,
};
use crate::config::{BoardProfile, ChipLimits, Topology, TopologySpec, ValidationError};
use crate::protocol::{
    FirmwareInfo, CMD_BOOTSEL, CMD_COMMIT, CMD_GET_PROFILE, CMD_GET_TOPOLOGY, CMD_INFO, CMD_REBOOT,
    CMD_SET_PROFILE, CMD_SET_TOPOLOGY, PROFILE_BUF_LEN, PROTOCOL_VERSION, STATUS_ERR_BAD_REQUEST,
    STATUS_ERR_DECODE, STATUS_ERR_FLASH, STATUS_ERR_INVALID, STATUS_OK, TOPOLOGY_BUF_LEN,
};
use crate::text;
use crate::text::push_decimal;
use crate::topology_toml;
use crate::topology_toml::TomlTopology;
use crate::wire;
use crate::wire::{
    info_from_bytes, profile_from_bytes, profile_to_bytes, topology_from_bytes, topology_to_bytes,
    WireError,
};

verus! {

/// A hexadecimal digit in lower case.
pub open spec fn lower_hex(d: int) -> char {
    seq!['0', '1', '2', '3', '4', '5', '6', '7', '8', '9', 'a', 'b', 'c', 'd', 'e', 'f'][d]
}

/// A character inside a JSON string.
pub open spec fn escaped(c: char) -> Seq<char> {
    let code = c as int;
    if c == '"' || c == '\\' {
        seq!['\\', c]
    } else if code == 8 {
        seq!['\\', 'b']
    } else if code == 9 {
        seq!['\\', 't']
    } else if code == 10 {
        seq!['\\', 'n']
    } else if code == 12 {
        seq!['\\', 'f']
    } else if code == 13 {
        seq!['\\', 'r']
    } else if code < 32 {
        seq!['\\', 'u', '0', '0', lower_hex(code / 16), lower_hex(code % 16)]
    } else {
        seq![c]
    }
}

/// Text inside a JSON string.
pub open spec fn escaped_text(s: Seq<char>) -> Seq<char>
    decreases s.len(),
{
    if s.len() == 0 {
        Seq::empty()
    } else {
        escaped_text(s.drop_last()) + escaped(s.last())
    }
}

/// Text as a JSON string.
pub open spec fn json_string(s: Seq<char>) -> Seq<char> {
    seq!['"'] + escaped_text(s) + seq!['"']
}

/// An optional number as JSON.
pub open spec fn json_number(n: Option<u8>) -> Seq<char> {
    match n {
        Some(n) => text::decimal(n as nat),
        None => "null"@,
    }
}

/// Numbers as a JSON array.
pub open spec fn json_numbers(numbers: Seq<u8>) -> Seq<char> {
    seq!['['] + text::join(numbers.map_values(|n: u8| text::decimal(n as nat)), ',') + seq![']']
}

/// A JSON object of two texts and an optional number.
pub open spec fn json_object(
    a: (Seq<char>, Seq<char>),
    b: (Seq<char>, Seq<char>),
    c: (Seq<char>, Option<u8>),
) -> Seq<char> {
    seq!['{'] + json_string(a.0) + seq![':'] + json_string(a.1) + seq![','] + json_string(b.0)
        + seq![':'] + json_string(b.1) + seq![','] + json_string(c.0) + seq![':'] + json_number(c.1)
        + seq!['}']
}

/// `serde_json::Value::to_string` on an object of two texts and an optional number:
/// the members in the order of their names, without white space. The names have
/// different first characters here, which decide that order.
#[verifier::external_body]
fn object_text(a: (&str, &str), b: (&str, &str), c: (&str, Option<u8>)) -> (r: String)
    requires
        a.0@.len() > 0,
        b.0@.len() > 0,
        c.0@.len() > 0,
        a.0@[0] < b.0@[0] < c.0@[0],
    ensures
        r@ == json_object((a.0@, a.1@), (b.0@, b.1@), (c.0@, c.1)),
{
    let mut members = serde_json::Map::new();
    members.insert(a.0.to_owned(), serde_json::Value::from(a.1));
    members.insert(b.0.to_owned(), serde_json::Value::from(b.1));
    members.insert(c.0.to_owned(), serde_json::Value::from(c.1));
    serde_json::Value::Object(members).to_string()
}

/// What `serde_json::from_str` reads from a text as an array of bytes: the numbers,
/// or the message of its error.
pub uninterp spec fn numbers_in(text: Seq<char>) -> Result<Seq<u8>, Seq<char>>;

/// `serde_json::from_str` for an array of bytes.
#[verifier::external_body]
fn parse_numbers(json: &str) -> (r: Result<Vec<u8>, String>)
    ensures
        r is Ok == numbers_in(json@) is Ok,
        r matches Ok(numbers) ==> numbers_in(json@)->Ok_0 == numbers@,
        r matches Err(message) ==> numbers_in(json@)->Err_0 == message@,
{
    match serde_json::from_str::<Vec<u8>>(json) {
        Ok(numbers) => Ok(numbers),
        Err(e) => Err(e.to_string()),
    }
}

/// `serde_json::Error`.
#[verifier::external_type_specification]
#[verifier::external_body]
pub struct ExJsonError(serde_json::Error);

/// `serde_json::to_string` on bytes: they become a JSON array of their numbers,
/// without white space, which reads as the same bytes. It does not fail.
#[verifier::external_body]
fn numbers_text(numbers: &Vec<u8>) -> (r: Result<String, serde_json::Error>)
    ensures
        r is Ok,
        r matches Ok(text) ==> text@ == json_numbers(numbers@),
        r matches Ok(text) ==> numbers_in(text@) is Ok && numbers_in(text@)->Ok_0 == numbers@,
{
    serde_json::to_string(numbers)
}

/// The code of a validation error, and the pin or UART that it is about.
pub open spec fn code_of(e: ValidationError) -> (Seq<char>, Option<u8>) {
    match e {
        ValidationError::TooManyProbes => ("TooManyProbes"@, None),
        ValidationError::TooManyUarts => ("TooManyUarts"@, None),
        ValidationError::EndpointBudget => ("EndpointBudget"@, None),
        ValidationError::PinUnavailable(p) => ("PinUnavailable"@, Some(p)),
        ValidationError::PinConflict(p) => ("PinConflict"@, Some(p)),
        ValidationError::PioWindow => ("PioWindow"@, None),
        ValidationError::UartPinMux(p) => ("UartPinMux"@, Some(p)),
        ValidationError::UartInstanceConflict(i) => ("UartInstanceConflict"@, Some(i)),
        ValidationError::ProfilePinRange => ("ProfilePinRange"@, None),
        ValidationError::ProfileEmpty => ("ProfileEmpty"@, None),
    }
}

/// A validation error in words.
pub open spec fn message_of(e: ValidationError) -> Seq<char> {
    match e {
        ValidationError::TooManyProbes =>
            "Not enough PIO state machines: each probe needs one, plus one for autobaud when any UART is configured"@,
        ValidationError::TooManyUarts => "At most 2 UART bridges (hardware UARTs)"@,
        ValidationError::EndpointBudget =>
            "USB endpoint budget exceeded (IN: probes + 2×UARTs, OUT: probes + UARTs, each ≤ 15)"@,
        ValidationError::PinUnavailable(p) => "GPIO"@ + text::decimal(p as nat)
            + " is not assignable on this board (missing, reserved, or beyond the chip's pins)"@,
        ValidationError::PinConflict(p) => "GPIO"@ + text::decimal(p as nat)
            + " is assigned twice"@,
        ValidationError::PioWindow =>
            "Probes cannot be grouped into PIO blocks whose pins fit one GPIOBASE window"@,
        ValidationError::UartPinMux(p) => "TX GPIO"@ + text::decimal(p as nat)
            + " and the RX pin do not select the same hardware UART (UART0: TX 0/12/16/28, RX 1/13/17/29; UART1: TX 4/8/20/24, RX 5/9/21/25)"@,
        ValidationError::UartInstanceConflict(i) =>
            "Two UART bridges both resolve to hardware UART"@ + text::decimal(i as nat),
        ValidationError::ProfilePinRange =>
            "Profile marks pins available that do not exist on this chip"@,
        ValidationError::ProfileEmpty =>
            "Profile leaves no pin assignable (available minus reserved is empty)"@,
    }
}

/// The code of a validation error, and the pin or UART that it is about.
pub fn error_code(e: &ValidationError) -> (r: (&'static str, Option<u8>))
    ensures
        (r.0@, r.1) == code_of(*e),
{
    match *e {
        ValidationError::TooManyProbes => ("TooManyProbes", None),
        ValidationError::TooManyUarts => ("TooManyUarts", None),
        ValidationError::EndpointBudget => ("EndpointBudget", None),
        ValidationError::PinUnavailable(p) => ("PinUnavailable", Some(p)),
        ValidationError::PinConflict(p) => ("PinConflict", Some(p)),
        ValidationError::PioWindow => ("PioWindow", None),
        ValidationError::UartPinMux(p) => ("UartPinMux", Some(p)),
        ValidationError::UartInstanceConflict(i) => ("UartInstanceConflict", Some(i)),
        ValidationError::ProfilePinRange => ("ProfilePinRange", None),
        ValidationError::ProfileEmpty => ("ProfileEmpty", None),
    }
}

/// `before`, a number, and `after`.
fn around(before: &str, n: u8, after: &str) -> (r: String)
    ensures
        r@ == before@ + text::decimal(n as nat) + after@,
{
    let mut out = String::from_str(before);
    push_decimal(&mut out, n as u64);
    out.append(after);
    out
}

/// A validation error in words.
pub fn error_message(e: &ValidationError) -> (r: String)
    ensures
        r@ == message_of(*e),
{
    match *e {
        ValidationError::TooManyProbes => String::from_str(
            "Not enough PIO state machines: each probe needs one, plus one for autobaud when any UART is configured",
        ),
        ValidationError::TooManyUarts => String::from_str(
            "At most 2 UART bridges (hardware UARTs)",
        ),
        ValidationError::EndpointBudget => String::from_str(
            "USB endpoint budget exceeded (IN: probes + 2×UARTs, OUT: probes + UARTs, each ≤ 15)",
        ),
        ValidationError::PinUnavailable(p) => around(
            "GPIO",
            p,
            " is not assignable on this board (missing, reserved, or beyond the chip's pins)",
        ),
        ValidationError::PinConflict(p) => around("GPIO", p, " is assigned twice"),
        ValidationError::PioWindow => String::from_str(
            "Probes cannot be grouped into PIO blocks whose pins fit one GPIOBASE window",
        ),
        ValidationError::UartPinMux(p) => around(
            "TX GPIO",
            p,
            " and the RX pin do not select the same hardware UART (UART0: TX 0/12/16/28, RX 1/13/17/29; UART1: TX 4/8/20/24, RX 5/9/21/25)",
        ),
        ValidationError::UartInstanceConflict(i) => {
            let mut out = String::from_str("Two UART bridges both resolve to hardware UART");
            push_decimal(&mut out, i as u64);
            out
        },
        ValidationError::ProfilePinRange => String::from_str(
            "Profile marks pins available that do not exist on this chip",
        ),
        ValidationError::ProfileEmpty => String::from_str(
            "Profile leaves no pin assignable (available minus reserved is empty)",
        ),
    }
}

/// The report of a validation: `null` if it succeeded, else an object with the
/// code, the message and the pin.
pub open spec fn report(result: Result<(), ValidationError>) -> Seq<char> {
    match result {
        Ok(()) => "null"@,
        Err(e) => json_object(
            ("code"@, code_of(e).0),
            ("message"@, message_of(e)),
            ("pin"@, code_of(e).1),
        ),
    }
}

/// The report of a validation.
pub fn validation_json(result: Result<(), ValidationError>) -> (r: String)
    ensures
        r@ == report(result),
{
    match result {
        Ok(()) => String::from_str("null"),
        Err(e) => {
            let (code, pin) = error_code(&e);
            let message = error_message(&e);
            proof {
                reveal_strlit("code");
                reveal_strlit("message");
                reveal_strlit("pin");
            }
            object_text(("code", code), ("message", message.as_str()), ("pin", pin))
        },
    }
}

/// What [`validate_topology`] answers: the report of the validation, or what is wrong
/// with the topology's size or the profile's pin ranges.
pub open spec fn topology_report(
    topology: TomlTopology,
    limits: ChipLimits,
    profile: TomlBoardProfile,
    r: Result<String, String>,
) -> bool {
    match (
        topology_toml::capacity_verdict(topology@),
        board_toml::profile_pins(profile.available@, profile.reserved@),
    ) {
        (Err(e), _) => r matches Err(message) && message@ == e.text(),
        (_, Err(e)) => r matches Err(message) && message@ == e.message(),
        (Ok(()), Ok((available, reserved))) => exists|masks: BoardProfile|
            bits::pin_set(masks.available) == available && bits::pin_set(masks.reserved) == reserved
                && (r matches Ok(text) && text@ == report(
                #[trigger] topology@.verdict(limits, masks),
            )),
    }
}

/// Validate a readable topology against the chip and a readable board profile.
pub fn validate_topology(
    topology: TomlTopology,
    limits: &ChipLimits,
    profile: TomlBoardProfile,
) -> (r: Result<String, String>)
    ensures
        topology_report(topology, *limits, profile, r),
{
    let topo: Topology = match topology.into_topology() {
        Ok(topo) => topo,
        Err(e) => {
            return Err(e.message());
        },
    };
    let masks: BoardProfile = match profile.into_profile() {
        Ok(masks) => masks,
        Err(e) => {
            return Err(e.message());
        },
    };
    Ok(validation_json(topo.validate(limits, &masks)))
}

/// What [`validate_profile`] answers.
pub open spec fn profile_report(
    profile: TomlBoardProfile,
    limits: ChipLimits,
    r: Result<String, String>,
) -> bool {
    match board_toml::profile_pins(profile.available@, profile.reserved@) {
        Err(e) => r matches Err(message) && message@ == e.message(),
        Ok((available, reserved)) => exists|masks: BoardProfile|
            bits::pin_set(masks.available) == available && bits::pin_set(masks.reserved) == reserved
                && (r matches Ok(text) && text@ == report(#[trigger] masks.verdict(limits))),
    }
}

/// Validate a readable board profile against the chip.
pub fn validate_profile(profile: TomlBoardProfile, limits: &ChipLimits) -> (r: Result<
    String,
    String,
>)
    ensures
        profile_report(profile, *limits, r),
{
    let masks: BoardProfile = match profile.into_profile() {
        Ok(masks) => masks,
        Err(e) => {
            return Err(e.message());
        },
    };
    Ok(validation_json(masks.validate(limits)))
}

/// What [`encode_topology`] answers.
pub open spec fn encodes_topology(topology: TopologySpec, r: Result<Vec<u8>, String>) -> bool {
    match topology_toml::capacity_verdict(topology) {
        Err(e) => r matches Err(message) && message@ == e.text(),
        Ok(()) => r matches Ok(bytes) && bytes@ == wire::topology_encoding(topology)
            && wire::topology_decoding(bytes@, 32) == Some(topology) && wire::topology_decoding(
            bytes@,
            64,
        ) == Some(topology),
    }
}

/// What [`encode_profile`] answers.
pub open spec fn encodes_profile(
    available: Seq<char>,
    reserved: Seq<char>,
    r: Result<Vec<u8>, String>,
) -> bool {
    match board_toml::profile_pins(available, reserved) {
        Err(e) => r matches Err(message) && message@ == e.message(),
        Ok((available, reserved)) => exists|masks: BoardProfile|
            bits::pin_set(masks.available) == available && bits::pin_set(masks.reserved) == reserved
                && (r matches Ok(bytes) && bytes@ == #[trigger] wire::profile_encoding(masks)
                && wire::profile_decoding(bytes@) == Some(masks)),
    }
}

/// What [`decode_profile`] answers.
pub open spec fn decodes_profile(bytes: Seq<u8>, r: Result<TomlBoardProfile, String>) -> bool {
    match (r, wire::profile_decoding(bytes)) {
        (Ok(readable), Some(profile)) => readable.available@ == board_toml::mask_text(
            profile.available,
        ) && readable.reserved@ == board_toml::mask_text(profile.reserved),
        (Err(message), None) => message@ == "decode BoardProfile: "@ + wire::postcard_profile_in(
            bytes,
        )->Err_0,
        _ => false,
    }
}

/// What [`pins_in_ranges`] answers.
pub open spec fn lists_pins(text: Seq<char>, r: Result<String, String>) -> bool {
    match board_toml::ranges_pins(text) {
        Err(e) => r matches Err(message) && message@ == e.message(),
        Ok(pins) => exists|mask: u64|
            bits::pin_set(mask) == pins && (r matches Ok(json) && json@ == json_numbers(
                #[trigger] pins_below(mask, 64),
            ) && numbers_in(json@) == Ok::<Seq<u8>, Seq<char>>(pins_below(mask, 64))),
    }
}

/// Encode a readable topology for the wire.
pub fn encode_topology(topology: TomlTopology) -> (r: Result<Vec<u8>, String>)
    ensures
        encodes_topology(topology@, r),
{
    let topo: Topology = match topology.into_topology() {
        Ok(topo) => topo,
        Err(e) => {
            return Err(e.message());
        },
    };
    match topology_to_bytes(&topo) {
        Ok(bytes) => Ok(bytes),
        Err(_) => Err(String::from_str("encode Topology")),
    }
}

/// What could not be decoded, and what postcard says of the bytes.
fn decode_message(what: &str, e: WireError) -> (r: String)
    requires
        e is Decode,
    ensures
        r@ == what@ + e->Decode_0@,
{
    let mut message: String = String::from_str(what);
    if let WireError::Decode(cause) = e {
        message.append(cause.as_str());
    }
    message
}

/// Decode a topology from the wire into readable form.
pub fn decode_topology(bytes: &[u8]) -> (r: Result<TomlTopology, String>)
    ensures
        match r {
            Ok(topology) => wire::topology_decoding(bytes@, usize::BITS as nat) == Some(topology@),
            Err(message) => wire::topology_decoding(bytes@, usize::BITS as nat) is None && message@
                == "decode Topology: "@ + wire::postcard_topology_in(
                bytes@,
                usize::BITS as nat,
            )->Err_0,
        },
{
    match topology_from_bytes(bytes) {
        Ok(topo) => Ok(TomlTopology::from_topology(&topo)),
        Err(e) => Err(decode_message("decode Topology: ", e)),
    }
}

/// Decode firmware information from the wire.
pub fn decode_info(bytes: &[u8]) -> (r: Result<FirmwareInfo, String>)
    ensures
        match r {
            Ok(info) => wire::info_decoding(bytes@) == Some(info),
            Err(message) => wire::info_decoding(bytes@) is None && message@
                == "decode FirmwareInfo: "@ + wire::postcard_info_in(bytes@)->Err_0,
        },
{
    match info_from_bytes(bytes) {
        Ok(info) => Ok(info),
        Err(e) => Err(decode_message("decode FirmwareInfo: ", e)),
    }
}

/// Encode a readable board profile for the wire.
pub fn encode_profile(profile: TomlBoardProfile) -> (r: Result<Vec<u8>, String>)
    ensures
        encodes_profile(profile.available@, profile.reserved@, r),
{
    let masks: BoardProfile = match profile.into_profile() {
        Ok(masks) => masks,
        Err(e) => {
            return Err(e.message());
        },
    };
    match profile_to_bytes(&masks) {
        Ok(bytes) => {
            assert(bytes@ == wire::profile_encoding(masks));
            Ok(bytes)
        },
        Err(_) => Err(String::from_str("encode BoardProfile")),
    }
}

/// Decode a board profile from the wire into readable form.
pub fn decode_profile(bytes: &[u8]) -> (r: Result<TomlBoardProfile, String>)
    ensures
        decodes_profile(bytes@, r),
{
    match profile_from_bytes(bytes) {
        Ok(profile) => Ok(TomlBoardProfile::from_profile(&profile)),
        Err(e) => Err(decode_message("decode BoardProfile: ", e)),
    }
}

/// The pins of `mask` below `n`, in ascending order.
pub open spec fn pins_below(mask: u64, n: nat) -> Seq<u8>
    decreases n,
{
    if n == 0 {
        Seq::empty()
    } else if bits::has_pin(mask, (n - 1) as u8) {
        pins_below(mask, (n - 1) as nat).push((n - 1) as u8)
    } else {
        pins_below(mask, (n - 1) as nat)
    }
}

/// The pins of a mask, in ascending order.
fn pins_of(mask: u64) -> (r: Vec<u8>)
    ensures
        r@ == pins_below(mask, 64),
{
    let mut out: Vec<u8> = Vec::new();
    let mut p: u8 = 0;
    while p < 64
        invariant
            p <= 64,
            out@ == pins_below(mask, p as nat),
        decreases 64 - p,
    {
        if mask & (1u64 << p) != 0 {
            out.push(p);
        }
        p = p + 1;
    }
    out
}

/// The pins of a pin-range string as a JSON array.
pub fn pins_in_ranges(text: &str) -> (r: Result<String, String>)
    ensures
        lists_pins(text@, r),
{
    match parse_pin_ranges(text) {
        Err(e) => Err(e.message()),
        Ok(mask) => {
            let pins = pins_of(mask);
            assert(pins@ == pins_below(mask, 64));
            match numbers_text(&pins) {
                Ok(json) => Ok(json),
                Err(_) => Err(String::new()),
            }
        },
    }
}

/// The first of `pins` that is beyond the last bit of a mask, from position `i` on.
pub open spec fn first_beyond(pins: Seq<u8>, i: int) -> Option<u8>
    decreases pins.len() - i,
{
    if i < 0 || i >= pins.len() {
        None
    } else if pins[i] > 63 {
        Some(pins[i])
    } else {
        first_beyond(pins, i + 1)
    }
}

/// What a list of pins is as a pin-range string: an error for the first pin that
/// does not exist.
pub open spec fn ranges_of(pins: Seq<u8>, r: Result<String, String>) -> bool {
    match first_beyond(pins, 0) {
        Some(p) => r matches Err(message) && message@ == "pin "@ + text::decimal(p as nat)
            + " out of range (max 63)"@,
        None => exists|mask: u64|
            (forall|pin: u8| bits::has_pin(mask, pin) <==> pins.contains(pin)) && (r matches Ok(
                text,
            ) && text@ == #[trigger] board_toml::mask_text(mask)),
    }
}

/// A list of pins as a pin-range string.
pub fn ranges_of_pins(pins: &Vec<u8>) -> (r: Result<String, String>)
    ensures
        ranges_of(pins@, r),
{
    let mut mask: u64 = 0;
    let mut i: usize = 0;
    proof {
        assert forall|pin: u8| !bits::has_pin(0, pin) by {
            bits::lemma_no_pin(pin);
        }
    }
    while i < pins.len()
        invariant
            i <= pins@.len(),
            first_beyond(pins@, 0) == first_beyond(pins@, i as int),
            forall|pin: u8| bits::has_pin(mask, pin) <==> pins@.take(i as int).contains(pin),
        decreases pins@.len() - i,
    {
        let p: u8 = pins[i];
        if p > 63 {
            return Err(around("pin ", p, " out of range (max 63)"));
        }
        let ghost before = mask;
        mask = mask | (1u64 << p);
        proof {
            let seen = pins@.take(i as int);
            let now = pins@.take(i + 1);
            assert(now =~= seen.push(p));
            assert forall|pin: u8| bits::has_pin(mask, pin) <==> now.contains(pin) by {
                bits::lemma_add_pin(before, p, pin);
                if seen.contains(pin) {
                    let k = choose|k: int| 0 <= k < seen.len() && seen[k] == pin;
                    assert(now[k] == pin);
                }
                assert(now[i as int] == p);
                if now.contains(pin) {
                    let k = choose|k: int| 0 <= k < now.len() && now[k] == pin;
                    if k < i {
                        assert(seen[k] == pin);
                    }
                }
            }
        }
        i = i + 1;
    }
    assert(pins@.take(i as int) =~= pins@);
    Ok(format_pin_ranges(mask))
}

/// A JSON array of pins as a pin-range string.
pub fn pins_to_ranges(json: &str) -> (r: Result<String, String>)
    ensures
        match numbers_in(json@) {
            Ok(pins) => ranges_of(pins, r),
            Err(e) => r matches Err(message) && message@ == "parse pin array: "@ + e,
        },
{
    match parse_numbers(json) {
        Ok(pins) => ranges_of_pins(&pins),
        Err(e) => {
            let mut message = String::from_str("parse pin array: ");
            message.append(e.as_str());
            Err(message)
        },
    }
}

/// The list of the pins below `n` holds them and nothing else.
proof fn lemma_pins_below(mask: u64, n: nat)
    requires
        n <= 64,
    ensures
        forall|pin: u8|
            #[trigger] pins_below(mask, n).contains(pin) <==> pin < n && bits::has_pin(mask, pin),
        forall|i: int| 0 <= i < pins_below(mask, n).len() ==> #[trigger] pins_below(mask, n)[i] < n,
    decreases n,
{
    if n > 0 {
        let shorter = pins_below(mask, (n - 1) as nat);
        let now = pins_below(mask, n);
        lemma_pins_below(mask, (n - 1) as nat);
        assert forall|pin: u8| #[trigger] now.contains(pin) <==> pin < n && bits::has_pin(
            mask,
            pin,
        ) by {
            if shorter.contains(pin) {
                let k = choose|k: int| 0 <= k < shorter.len() && shorter[k] == pin;
                assert(now[k] == pin);
            }
            if now.contains(pin) {
                let k = choose|k: int| 0 <= k < now.len() && now[k] == pin;
                if k < shorter.len() {
                    assert(shorter[k] == pin);
                    assert(shorter.contains(pin));
                }
            }
            if pin == n - 1 && bits::has_pin(mask, pin) {
                assert(now[now.len() - 1] == pin);
            }
        }
        assert forall|i: int| 0 <= i < now.len() implies #[trigger] now[i] < n by {
            if i < shorter.len() {
                assert(shorter[i] < n - 1);
            }
        }
    }
}

/// No pin of the list is beyond the last bit.
proof fn lemma_none_beyond(pins: Seq<u8>, i: int)
    requires
        0 <= i,
        forall|k: int| 0 <= k < pins.len() ==> #[trigger] pins[k] < 64,
    ensures
        first_beyond(pins, i) is None,
    decreases pins.len() - i,
{
    if i < pins.len() {
        lemma_none_beyond(pins, i + 1);
    }
}

/// Listing the pins of a mask, and writing the list as a pin-range string, gives the
/// string of the mask.
pub proof fn pin_lists_read_back(mask: u64, r: Result<String, String>)
    requires
        ranges_of(pins_below(mask, 64), r),
    ensures
        r matches Ok(text) && text@ == board_toml::mask_text(mask),
{
    let pins = pins_below(mask, 64);
    lemma_pins_below(mask, 64);
    lemma_none_beyond(pins, 0);
    let other = choose|other: u64|
        (forall|pin: u8| bits::has_pin(other, pin) <==> pins.contains(pin)) && (r matches Ok(text)
            && text@ == #[trigger] board_toml::mask_text(other));
    assert forall|pin: u8| bits::has_pin(mask, pin) == bits::has_pin(other, pin) by {
        assert(pins.contains(pin) <==> pin < 64 && bits::has_pin(mask, pin));
    }
    bits::lemma_same_pins(mask, other);
}

/// A report is `null` exactly when the validation succeeded.
pub proof fn reports_tell_success(result: Result<(), ValidationError>)
    ensures
        report(result) == "null"@ <==> result is Ok,
{
    reveal_strlit("null");
    if result is Err {
        assert(report(result)[0] == '{');
    }
}

/// Names and numbers, as text.
pub open spec fn counts(list: Seq<(&str, u64)>) -> Seq<(Seq<char>, u64)> {
    list.map_values(|member: (&str, u64)| (member.0@, member.1))
}

/// A name and a number as a member of a JSON object.
pub open spec fn json_count(name: Seq<char>, n: u64) -> Seq<char> {
    json_string(name) + seq![':'] + text::decimal(n as nat)
}

/// Names and numbers as a JSON object.
pub open spec fn json_counts(list: Seq<(Seq<char>, u64)>) -> Seq<char> {
    seq!['{'] + text::join(
        list.map_values(|member: (Seq<char>, u64)| json_count(member.0, member.1)),
        ',',
    ) + seq!['}']
}

/// `a` stands before `b` in lexicographic order.
pub open spec fn precedes(a: Seq<char>, b: Seq<char>) -> bool
    decreases a.len(),
{
    if b.len() == 0 {
        false
    } else if a.len() == 0 {
        true
    } else {
        a[0] < b[0] || (a[0] == b[0] && precedes(a.skip(1), b.skip(1)))
    }
}

/// Each name stands before the next.
pub open spec fn ascending(list: Seq<(Seq<char>, u64)>) -> bool {
    forall|i: int, j: int|
        #![trigger list[i], list[j]]
        0 <= i && j == i + 1 && j < list.len() ==> precedes(list[i].0, list[j].0)
}

/// A JSON object with two objects and three numbers in it.
pub open spec fn json_settings(
    a: (Seq<char>, Seq<(Seq<char>, u64)>),
    b: (Seq<char>, u64),
    c: (Seq<char>, u64),
    d: (Seq<char>, Seq<(Seq<char>, u64)>),
    e: (Seq<char>, u64),
) -> Seq<char> {
    seq!['{'] + json_string(a.0) + seq![':'] + json_counts(a.1) + seq![','] + json_count(b.0, b.1)
        + seq![','] + json_count(c.0, c.1) + seq![','] + json_string(d.0) + seq![':']
        + json_counts(d.1) + seq![','] + json_count(e.0, e.1) + seq!['}']
}

/// `serde_json::Value::to_string` on an object with two objects of numbers and three
/// numbers in it: the members of each object in the order of their names, without
/// white space. The names come in that order.
#[verifier::external_body]
fn settings_text(
    a: (&str, &Vec<(&str, u64)>),
    b: (&str, u64),
    c: (&str, u64),
    d: (&str, &Vec<(&str, u64)>),
    e: (&str, u64),
) -> (r: String)
    requires
        ascending(counts(a.1@)),
        ascending(counts(d.1@)),
        precedes(a.0@, b.0@),
        precedes(b.0@, c.0@),
        precedes(c.0@, d.0@),
        precedes(d.0@, e.0@),
    ensures
        r@ == json_settings(
            (a.0@, counts(a.1@)),
            (b.0@, b.1),
            (c.0@, c.1),
            (d.0@, counts(d.1@)),
            (e.0@, e.1),
        ),
{
    let mut members = serde_json::Map::new();
    members.insert(a.0.to_owned(), serde_json::Value::from_iter(a.1.iter().copied()));
    members.insert(b.0.to_owned(), serde_json::Value::from(b.1));
    members.insert(c.0.to_owned(), serde_json::Value::from(c.1));
    members.insert(d.0.to_owned(), serde_json::Value::from_iter(d.1.iter().copied()));
    members.insert(e.0.to_owned(), serde_json::Value::from(e.1));
    serde_json::Value::Object(members).to_string()
}

/// The first character that differs decides the order.
proof fn lemma_precedes(a: Seq<char>, b: Seq<char>, k: int)
    requires
        0 <= k < a.len(),
        k < b.len(),
        forall|i: int| 0 <= i < k ==> a[i] == b[i],
        a[k] < b[k],
    ensures
        precedes(a, b),
    decreases k,
{
    if k > 0 {
        lemma_precedes(a.skip(1), b.skip(1), k - 1);
    }
}

/// The command bytes, by name.
pub open spec fn command_numbers() -> Seq<(Seq<char>, u64)> {
    seq![
        ("bootsel"@, CMD_BOOTSEL as u64),
        ("commit"@, CMD_COMMIT as u64),
        ("get_profile"@, CMD_GET_PROFILE as u64),
        ("get_topology"@, CMD_GET_TOPOLOGY as u64),
        ("info"@, CMD_INFO as u64),
        ("reboot"@, CMD_REBOOT as u64),
        ("set_profile"@, CMD_SET_PROFILE as u64),
        ("set_topology"@, CMD_SET_TOPOLOGY as u64),
    ]
}

/// The status bytes, by name.
pub open spec fn status_numbers() -> Seq<(Seq<char>, u64)> {
    seq![
        ("err_bad_request"@, STATUS_ERR_BAD_REQUEST as u64),
        ("err_decode"@, STATUS_ERR_DECODE as u64),
        ("err_flash"@, STATUS_ERR_FLASH as u64),
        ("err_invalid"@, STATUS_ERR_INVALID as u64),
        ("ok"@, STATUS_OK as u64),
    ]
}

/// The protocol constants as JSON.
pub open spec fn constants_text() -> Seq<char> {
    json_settings(
        ("cmd"@, command_numbers()),
        ("profile_buf_len"@, PROFILE_BUF_LEN as u64),
        ("protocol_version"@, PROTOCOL_VERSION as u64),
        ("status"@, status_numbers()),
        ("topology_buf_len"@, TOPOLOGY_BUF_LEN as u64),
    )
}

/// Protocol constants (command bytes, buffer sizes, protocol version) as JSON.
pub fn constants() -> (r: String)
    ensures
        r@ == constants_text(),
{
    let cmd: Vec<(&str, u64)> = vec![
        ("bootsel", CMD_BOOTSEL as u64),
        ("commit", CMD_COMMIT as u64),
        ("get_profile", CMD_GET_PROFILE as u64),
        ("get_topology", CMD_GET_TOPOLOGY as u64),
        ("info", CMD_INFO as u64),
        ("reboot", CMD_REBOOT as u64),
        ("set_profile", CMD_SET_PROFILE as u64),
        ("set_topology", CMD_SET_TOPOLOGY as u64),
    ];
    let status: Vec<(&str, u64)> = vec![
        ("err_bad_request", STATUS_ERR_BAD_REQUEST as u64),
        ("err_decode", STATUS_ERR_DECODE as u64),
        ("err_flash", STATUS_ERR_FLASH as u64),
        ("err_invalid", STATUS_ERR_INVALID as u64),
        ("ok", STATUS_OK as u64),
    ];
    proof {
        reveal_strlit("cmd");
        reveal_strlit("profile_buf_len");
        reveal_strlit("protocol_version");
        reveal_strlit("status");
        reveal_strlit("topology_buf_len");
        reveal_strlit("bootsel");
        reveal_strlit("commit");
        reveal_strlit("get_profile");
        reveal_strlit("get_topology");
        reveal_strlit("info");
        reveal_strlit("reboot");
        reveal_strlit("set_profile");
        reveal_strlit("set_topology");
        reveal_strlit("err_bad_request");
        reveal_strlit("err_decode");
        reveal_strlit("err_flash");
        reveal_strlit("err_invalid");
        reveal_strlit("ok");
        lemma_precedes("bootsel"@, "commit"@, 0);
        lemma_precedes("commit"@, "get_profile"@, 0);
        lemma_precedes("get_profile"@, "get_topology"@, 4);
        lemma_precedes("get_topology"@, "info"@, 0);
        lemma_precedes("info"@, "reboot"@, 0);
        lemma_precedes("reboot"@, "set_profile"@, 0);
        lemma_precedes("set_profile"@, "set_topology"@, 4);
        lemma_precedes("err_bad_request"@, "err_decode"@, 4);
        lemma_precedes("err_decode"@, "err_flash"@, 4);
        lemma_precedes("err_flash"@, "err_invalid"@, 4);
        lemma_precedes("err_invalid"@, "ok"@, 0);
        lemma_precedes("cmd"@, "profile_buf_len"@, 0);
        lemma_precedes("profile_buf_len"@, "protocol_version"@, 3);
        lemma_precedes("protocol_version"@, "status"@, 0);
        lemma_precedes("status"@, "topology_buf_len"@, 0);
        assert(counts(cmd@) =~= command_numbers());
        assert(counts(status@) =~= status_numbers());
    }
    settings_text(
        ("cmd", &cmd),
        ("profile_buf_len", PROFILE_BUF_LEN as u64),
        ("protocol_version", PROTOCOL_VERSION as u64),
        ("status", &status),
        ("topology_buf_len", TOPOLOGY_BUF_LEN as u64),
    )
}

/// A topology that was encoded and decoded is the same and encodes to the same bytes,
/// which fit the staging buffer. [`encode_topology`] says of every topology that it
/// encodes that it reads back.
pub proof fn encoded_topologies_read_back(
    topology: TopologySpec,
    back: TopologySpec,
    bytes: Seq<u8>,
    word_bits: nat,
)
    requires
        topology_toml::capacity_verdict(topology) is Ok,
        wire::topology_reads_back(topology),
        word_bits == 32 || word_bits == 64,
        bytes == wire::topology_encoding(topology),
        wire::topology_decoding(bytes, word_bits) == Some(back),
    ensures
        back == topology,
        wire::topology_encoding(back) == bytes,
        bytes.len() <= TOPOLOGY_BUF_LEN,
{
    wire::topology_encodings_are_short(topology);
}

/// A readable profile that was encoded and decoded is in canonical form, the form in which
/// its masks are written, and encodes to the same bytes. [`encode_profile`] says of
/// every profile that it encodes that it reads back.
pub proof fn encoded_profiles_read_back(
    available: Seq<char>,
    reserved: Seq<char>,
    masks: BoardProfile,
    back: BoardProfile,
    again: BoardProfile,
    bytes: Seq<u8>,
)
    requires
        board_toml::profile_pins(available, reserved) == Ok::<_, PinRangeErrorSpec>(
            (bits::pin_set(masks.available), bits::pin_set(masks.reserved)),
        ),
        wire::profile_reads_back(masks),
        bytes == wire::profile_encoding(masks),
        wire::profile_decoding(bytes) == Some(back),
        board_toml::profile_pins(
            board_toml::mask_text(back.available),
            board_toml::mask_text(back.reserved),
        ) == Ok::<_, PinRangeErrorSpec>(
            (bits::pin_set(again.available), bits::pin_set(again.reserved)),
        ),
    ensures
        back == masks,
        again == masks,
        wire::profile_encoding(again) == bytes,
        bytes.len() <= PROFILE_BUF_LEN,
{
    wire::profile_encodings_are_short(masks);
    board_toml::pin_ranges_read_back(back.available);
    board_toml::pin_ranges_read_back(back.reserved);
    assert forall|pin: u8|
        bits::has_pin(again.available, pin) == bits::has_pin(masks.available, pin) by {
        assert(bits::pin_set(again.available).contains(pin) == bits::pin_set(
            masks.available,
        ).contains(pin));
    }
    assert forall|pin: u8|
        bits::has_pin(again.reserved, pin) == bits::has_pin(masks.reserved, pin) by {
        assert(bits::pin_set(again.reserved).contains(pin) == bits::pin_set(
            masks.reserved,
        ).contains(pin));
    }
    bits::lemma_same_pins(again.available, masks.available);
    bits::lemma_same_pins(again.reserved, masks.reserved);
}

/// The list of the pins of a mask holds each of them once, in ascending order, and nothing
/// else.
pub proof fn pin_lists_ascend(mask: u64, n: nat)
    requires
        n <= 64,
    ensures
        forall|pin: u8|
            #[trigger] pins_below(mask, n).contains(pin) <==> pin < n && bits::has_pin(mask, pin),
        forall|i: int, j: int|
            0 <= i < j < pins_below(mask, n).len() ==> pins_below(mask, n)[i] < pins_below(
                mask,
                n,
            )[j],
    decreases n,
{
    lemma_pins_below(mask, n);
    if n > 0 {
        pin_lists_ascend(mask, (n - 1) as nat);
        lemma_pins_below(mask, (n - 1) as nat);
        let shorter = pins_below(mask, (n - 1) as nat);
        let now = pins_below(mask, n);
        assert forall|i: int, j: int| 0 <= i < j < now.len() implies now[i] < now[j] by {
            if j < shorter.len() {
                assert(shorter[i] < shorter[j]);
            } else {
                assert(shorter[i] < n - 1);
            }
        }
    }
}

/// A list of pins is refused exactly if one of them is above 63, and the first such pin is
/// the one that is named.
pub proof fn the_first_pin_beyond_is_named(pins: Seq<u8>, from: int)
    requires
        0 <= from <= pins.len(),
    ensures
        match first_beyond(pins, from) {
            Some(p) => p > 63 && exists|i: int|
                #![trigger pins[i]]
                from <= i < pins.len() && pins[i] == p && forall|j: int|
                    from <= j < i ==> #[trigger] pins[j] <= 63,
            None => forall|j: int| from <= j < pins.len() ==> #[trigger] pins[j] <= 63,
        },
    decreases pins.len() - from,
{
    if from < pins.len() {
        if pins[from] <= 63 {
            the_first_pin_beyond_is_named(pins, from + 1);
            if let Some(p) = first_beyond(pins, from + 1) {
                let i = choose|i: int|
                    #![trigger pins[i]]
                    from + 1 <= i < pins.len() && pins[i] == p && forall|j: int|
                        from + 1 <= j < i ==> #[trigger] pins[j] <= 63;
                assert(pins[i] == p);
            }
        } else {
            assert(pins[from] > 63);
        }
    }
}

/// An error about a pin or a UART tells which one, as a number and in its message, and no
/// other error does.
pub proof fn errors_name_their_pin(e: ValidationError, n: u8)
    ensures
        code_of(e).1 == Some(n) <==> e == ValidationError::PinUnavailable(n) || e
            == ValidationError::PinConflict(n) || e == ValidationError::UartPinMux(n) || e
            == ValidationError::UartInstanceConflict(n),
        e == ValidationError::PinUnavailable(n) || e == ValidationError::PinConflict(n)
            ==> message_of(e).take(4 + text::decimal(n as nat).len() as int) == "GPIO"@
            + text::decimal(n as nat),
        e == ValidationError::UartPinMux(n) ==> message_of(e).take(
            7 + text::decimal(n as nat).len() as int,
        ) == "TX GPIO"@ + text::decimal(n as nat),
        e == ValidationError::UartInstanceConflict(n) ==> message_of(e).skip(
            message_of(e).len() - 4 - text::decimal(n as nat).len(),
        ) == "UART"@ + text::decimal(n as nat),
{
    reveal_strlit("GPIO");
    reveal_strlit("TX GPIO");
    reveal_strlit("UART");
    reveal_strlit("Two UART bridges both resolve to hardware UART");
    let number = text::decimal(n as nat);
    let m = message_of(e);
    if e == ValidationError::PinUnavailable(n) || e == ValidationError::PinConflict(n) {
        assert(m.take(4 + number.len() as int) =~= "GPIO"@ + number);
    }
    if e == ValidationError::UartPinMux(n) {
        assert(m.take(7 + number.len() as int) =~= "TX GPIO"@ + number);
    }
    if e == ValidationError::UartInstanceConflict(n) {
        assert(m.skip(m.len() - 4 - number.len()) =~= "UART"@ + number);
    }
}

/// A readable topology is judged like the topology it stands for, against the board profile
/// that the readable profile stands for: the answer is `null` exactly if that topology is
/// valid there. Only a topology that is too large, or pin ranges that are wrong, are an
/// error, and the size is looked at first.
pub proof fn readable_topologies_are_judged(
    topology: TomlTopology,
    limits: ChipLimits,
    readable: TomlBoardProfile,
    masks: BoardProfile,
    r: Result<String, String>,
)
    requires
        topology_report(topology, limits, readable, r),
    ensures
        r is Ok <==> topology_toml::capacity_verdict(topology@) is Ok && board_toml::profile_pins(
            readable.available@,
            readable.reserved@,
        ) is Ok,
        board_toml::profile_pins(readable.available@, readable.reserved@) == Ok::<
            _,
            PinRangeErrorSpec,
        >((bits::pin_set(masks.available), bits::pin_set(masks.reserved))) ==> (r matches Ok(text)
            ==> text@ == report(topology@.verdict(limits, masks)) && (text@ == "null"@
            <==> topology@.verdict(limits, masks) is Ok)),
        topology_toml::capacity_verdict(topology@) matches Err(e) ==> r matches Err(message)
            && message@ == e.text(),
{
    let pins = board_toml::profile_pins(readable.available@, readable.reserved@);
    if r is Ok && pins == Ok::<_, PinRangeErrorSpec>(
        (bits::pin_set(masks.available), bits::pin_set(masks.reserved)),
    ) {
        let (available, reserved) = pins->Ok_0;
        let other = choose|other: BoardProfile|
            bits::pin_set(other.available) == available && bits::pin_set(other.reserved) == reserved
                && (r matches Ok(text) && text@ == report(
                #[trigger] topology@.verdict(limits, other),
            ));
        lemma_same_profile(masks, other);
        reports_tell_success(topology@.verdict(limits, masks));
    }
}

/// Profiles with the same pins are the same.
proof fn lemma_same_profile(a: BoardProfile, b: BoardProfile)
    requires
        bits::pin_set(a.available) == bits::pin_set(b.available),
        bits::pin_set(a.reserved) == bits::pin_set(b.reserved),
    ensures
        a == b,
{
    assert forall|pin: u8| bits::has_pin(a.available, pin) == bits::has_pin(b.available, pin) by {
        assert(bits::pin_set(a.available).contains(pin) == bits::has_pin(a.available, pin));
        assert(bits::pin_set(b.available).contains(pin) == bits::has_pin(b.available, pin));
    }
    assert forall|pin: u8| bits::has_pin(a.reserved, pin) == bits::has_pin(b.reserved, pin) by {
        assert(bits::pin_set(a.reserved).contains(pin) == bits::has_pin(a.reserved, pin));
        assert(bits::pin_set(b.reserved).contains(pin) == bits::has_pin(b.reserved, pin));
    }
    bits::lemma_same_pins(a.available, b.available);
    bits::lemma_same_pins(a.reserved, b.reserved);
}

/// A readable profile is judged like the profile it stands for; only wrong pin ranges are an
/// error.
pub proof fn readable_profiles_are_judged(
    readable: TomlBoardProfile,
    limits: ChipLimits,
    masks: BoardProfile,
    r: Result<String, String>,
)
    requires
        profile_report(readable, limits, r),
    ensures
        r is Ok <==> board_toml::profile_pins(readable.available@, readable.reserved@) is Ok,
        board_toml::profile_pins(readable.available@, readable.reserved@) == Ok::<
            _,
            PinRangeErrorSpec,
        >((bits::pin_set(masks.available), bits::pin_set(masks.reserved))) ==> (r matches Ok(text)
            && text@ == report(masks.verdict(limits)) && (text@ == "null"@ <==> masks.verdict(
            limits,
        ) is Ok)),
{
    let pins = board_toml::profile_pins(readable.available@, readable.reserved@);
    if pins == Ok::<_, PinRangeErrorSpec>(
        (bits::pin_set(masks.available), bits::pin_set(masks.reserved)),
    ) {
        let (available, reserved) = pins->Ok_0;
        let other = choose|other: BoardProfile|
            bits::pin_set(other.available) == available && bits::pin_set(other.reserved) == reserved
                && (r matches Ok(text) && text@ == report(#[trigger] other.verdict(limits)));
        lemma_same_profile(masks, other);
        reports_tell_success(masks.verdict(limits));
    }
}

/// Text without quotation marks, backslashes and control characters stands in a JSON string
/// as it is; a quotation mark or a backslash gets a backslash in front.
pub proof fn plain_text_is_not_escaped(s: Seq<char>)
    ensures
        (forall|i: int|
            0 <= i < s.len() ==> (#[trigger] s[i]) as int >= 32 && s[i] != '"' && s[i] != '\\')
            ==> json_string(s) == seq!['"'] + s + seq!['"'],
        escaped('"') == seq!['\\', '"'],
        escaped('\\') == seq!['\\', '\\'],
    decreases s.len(),
{
    if (forall|i: int|
        0 <= i < s.len() ==> (#[trigger] s[i]) as int >= 32 && s[i] != '"' && s[i] != '\\')
        && s.len() > 0 {
        let shorter = s.drop_last();
        assert forall|i: int| 0 <= i < shorter.len() implies (#[trigger] shorter[i]) as int >= 32
            && shorter[i] != '"' && shorter[i] != '\\' by {
            assert(shorter[i] == s[i]);
        }
        plain_text_is_not_escaped(shorter);
        let quoted = json_string(shorter);
        assert(escaped_text(shorter) =~= quoted.subrange(1, quoted.len() - 1));
        assert((seq!['"'] + shorter + seq!['"']).subrange(1, shorter.len() as int + 1)
            =~= shorter);
        assert(s[s.len() - 1] == s.last());
        assert(escaped(s.last()) == seq![s.last()]);
        assert(shorter + seq![s.last()] =~= s);
    }
}

/// A readable configuration is encoded as the wire type that it stands for: a topology if it has
/// at most twelve probes and two bridges, a profile if its pin ranges are right.
pub proof fn readable_configurations_are_encoded(
    topology: TomlTopology,
    t: Result<Vec<u8>, String>,
    readable: TomlBoardProfile,
    masks: BoardProfile,
    p: Result<Vec<u8>, String>,
)
    requires
        encodes_topology(topology@, t),
        encodes_profile(readable.available@, readable.reserved@, p),
    ensures
        t is Ok <==> topology.probes@.len() <= 12 && topology.uarts@.len() <= 2,
        t matches Ok(bytes) ==> bytes@ == wire::topology_encoding(topology@),
        p is Ok <==> board_toml::ranges_pins(readable.available@) is Ok && board_toml::ranges_pins(
            readable.reserved@,
        ) is Ok,
        board_toml::ranges_pins(readable.available@) == Ok::<Set<u8>, PinRangeErrorSpec>(
            bits::pin_set(masks.available),
        ) && board_toml::ranges_pins(readable.reserved@) == Ok::<Set<u8>, PinRangeErrorSpec>(
            bits::pin_set(masks.reserved),
        ) ==> (p matches Ok(bytes) && bytes@ == wire::profile_encoding(masks)),
{
    if board_toml::ranges_pins(readable.available@) == Ok::<Set<u8>, PinRangeErrorSpec>(
        bits::pin_set(masks.available),
    ) && board_toml::ranges_pins(readable.reserved@) == Ok::<Set<u8>, PinRangeErrorSpec>(
        bits::pin_set(masks.reserved),
    ) {
        let other = choose|other: BoardProfile|
            bits::pin_set(other.available) == bits::pin_set(masks.available) && bits::pin_set(
                other.reserved,
            ) == bits::pin_set(masks.reserved) && (p matches Ok(bytes) && bytes@
                == #[trigger] wire::profile_encoding(other) && wire::profile_decoding(bytes@)
                == Some(other));
        lemma_same_profile(masks, other);
    }
}

/// An encoded profile is decoded to pin ranges that name the pins of its masks.
pub proof fn decoded_profiles_name_their_pins(
    profile: BoardProfile,
    r: Result<TomlBoardProfile, String>,
)
    requires
        wire::profile_reads_back(profile),
        decodes_profile(wire::profile_encoding(profile), r),
    ensures
        r matches Ok(readable) && board_toml::ranges_pins(readable.available@) == Ok::<
            Set<u8>,
            PinRangeErrorSpec,
        >(bits::pin_set(profile.available)) && board_toml::ranges_pins(readable.reserved@) == Ok::<
            Set<u8>,
            PinRangeErrorSpec,
        >(bits::pin_set(profile.reserved)),
{
    board_toml::pin_ranges_read_back(profile.available);
    board_toml::pin_ranges_read_back(profile.reserved);
}

/// The pins that a pin-range string names are listed: each once, in ascending order, and no
/// others. A string that is wrong is an error.
pub proof fn named_pins_are_listed(text: Seq<char>, r: Result<String, String>)
    requires
        lists_pins(text, r),
    ensures
        r is Ok <==> board_toml::ranges_pins(text) is Ok,
        r matches Ok(json) ==> {
            let listed = numbers_in(json@)->Ok_0;
            &&& numbers_in(json@) is Ok
            &&& json@ == json_numbers(listed)
            &&& forall|pin: u8|
                #[trigger] listed.contains(pin) <==> board_toml::ranges_pins(text)->Ok_0.contains(
                    pin,
                )
            &&& forall|i: int, j: int| 0 <= i < j < listed.len() ==> listed[i] < listed[j]
        },
{
    if let Ok(pins) = board_toml::ranges_pins(text) {
        let mask = choose|mask: u64|
            bits::pin_set(mask) == pins && (r matches Ok(json) && json@ == json_numbers(
                #[trigger] pins_below(mask, 64),
            ) && numbers_in(json@) == Ok::<Seq<u8>, Seq<char>>(pins_below(mask, 64)));
        pin_lists_ascend(mask, 64);
        let listed = pins_below(mask, 64);
        assert forall|pin: u8| #[trigger] listed.contains(pin) <==> pins.contains(pin) by {
            assert(bits::pin_set(mask).contains(pin) == bits::has_pin(mask, pin));
        }
    }
}

} // verus!
