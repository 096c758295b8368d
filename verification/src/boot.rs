//! What the firmware boots with: the stored configuration or the default one, and
//! the identity it reports.

use vstd::prelude::*;

use crate::bytes::append_range;
use crate::config;
use crate::config::{
    rp2040, rp2350a, rp2350b, BoardProfile, ChipLimits, ProbeConfig, Topology, TopologySpec,
    UartConfig,
};
use crate::fixed_vec::{probe_slice, push_probe, push_uart, uart_slice};
use crate::protocol::{
    Chip, FirmwareInfo, PACKET_SIZE, PROTOCOL_VERSION, VENDOR_BASE, VENDOR_END,
};

verus! {

/// The default topology: one SWD probe on SWCLK=GP2, SWDIO=GP3 and nRESET=GP1, and
/// a serial bridge on TX=GP4 and RX=GP5 at 115200 baud.
pub open spec fn stock() -> TopologySpec {
    TopologySpec {
        probes: seq![ProbeConfig { swclk: 2, swdio: 3, reset: Some(1) }],
        uarts: seq![UartConfig { tx: 4, rx: 5, baud: 115200 }],
    }
}

/// The default topology.
pub fn stock_topology() -> (r: Topology)
    ensures
        r@ == stock(),
{
    let mut r = Topology::default();
    let _ = push_probe(&mut r.probes, ProbeConfig { swclk: 2, swdio: 3, reset: Some(1) });
    let _ = push_uart(&mut r.uarts, UartConfig { tx: 4, rx: 5, baud: 115200 });
    assert(r@ =~= stock());
    r
}

/// The board profile that is booted with, given the stored one.
pub open spec fn booted_profile(stored: Option<BoardProfile>) -> BoardProfile {
    match stored {
        Some(profile) => profile,
        None => BoardProfile::pico(),
    }
}

/// The board profile to boot with: the stored one, or that of a bare Pico.
pub fn boot_profile(stored: Option<BoardProfile>) -> (r: BoardProfile)
    ensures
        r == booted_profile(stored),
{
    match stored {
        Some(profile) => profile,
        None => BoardProfile::pico(),
    }
}

/// The topology that is booted with, and whether there is a fault in the stored one.
pub open spec fn booted(
    stored: Option<TopologySpec>,
    chip: ChipLimits,
    profile: BoardProfile,
) -> (TopologySpec, bool) {
    match stored {
        Some(topology) if topology.verdict(chip, profile) is Ok => (topology, false),
        _ => (stock(), true),
    }
}

/// The topology to boot with, and whether the stored one was missing or invalid, so
/// that it is the default one.
pub fn boot_topology(stored: Option<Topology>, chip: &ChipLimits, profile: &BoardProfile) -> (r: (
    Topology,
    bool,
))
    ensures
        match stored {
            Some(topology) if topology@.verdict(*chip, *profile) is Ok => r.0@ == topology@ && !r.1,
            _ => r.0@ == stock() && r.1,
        },
        (r.0@, r.1) == booted(
            match stored {
                Some(topology) => Some(topology@),
                None => None,
            },
            *chip,
            *profile,
        ),
{
    match stored {
        Some(topology) => match topology.validate(chip, profile) {
            Ok(()) => (topology, false),
            Err(_) => (stock_topology(), true),
        },
        None => (stock_topology(), true),
    }
}

/// What the firmware reports of itself with `active` booted.
pub open spec fn reported(
    chip: Chip,
    limits: ChipLimits,
    firmware_version: (u8, u8, u8),
    active: TopologySpec,
    config_fault: bool,
) -> FirmwareInfo {
    FirmwareInfo {
        protocol_version: PROTOCOL_VERSION,
        firmware_version,
        chip,
        limits,
        active_probes: active.probes.len() as u8,
        active_uarts: active.uarts.len() as u8,
        config_fault,
    }
}

/// What the firmware reports of itself.
pub fn firmware_info(
    chip: Chip,
    limits: ChipLimits,
    firmware_version: (u8, u8, u8),
    active: &Topology,
    config_fault: bool,
) -> (r: FirmwareInfo)
    ensures
        r == reported(chip, limits, firmware_version, active@, config_fault),
        r.active_probes == active@.probes.len(),
        r.active_uarts == active@.uarts.len(),
{
    let probes: usize = probe_slice(&active.probes).len();
    let uarts: usize = uart_slice(&active.uarts).len();
    FirmwareInfo {
        protocol_version: PROTOCOL_VERSION,
        firmware_version,
        chip,
        limits,
        active_probes: probes as u8,
        active_uarts: uarts as u8,
        config_fault,
    }
}

/// The default topology is valid on a bare Pico, with any of the chips.
pub proof fn stock_topology_is_valid(chip: ChipLimits)
    requires
        chip == rp2040() || chip == rp2350a() || chip == rp2350b(),
    ensures
        stock().verdict(chip, BoardProfile::pico()) is Ok,
{
    reveal_with_fuel(config::probes_pins, 2);
    reveal_with_fuel(config::uarts_pins, 2);
    config::accepted_topologies(stock(), chip, BoardProfile::pico());
    let pins = stock().pins();
    assert(pins =~= seq![2u8, 3, 1, 4, 5]);
    assert forall|pin: u8| 1 <= pin <= 5 implies BoardProfile::pico().assignable(pin) by {
        assert(1 <= pin <= 5 ==> 0x1FFF_FFFFu64 & (1u64 << pin) != 0 && 0x2380_0000u64 & (1u64
            << pin) == 0) by (bit_vector);
    }
    assert(chip.pio_blocks * chip.sms_per_block >= 8) by (nonlinear_arith)
        requires
            chip.pio_blocks >= 2,
            chip.sms_per_block == 4,
    ;
    assert(config::pins_acceptable(pins, chip, BoardProfile::pico()));
    assert(config::uarts_acceptable(stock().uarts));
}

/// The character code of a hexadecimal digit, in upper case.
pub open spec fn hex_digit(d: int) -> u8 {
    if d < 10 {
        (48 + d) as u8
    } else {
        (55 + d) as u8
    }
}

/// Sixteen to the power of `n`.
pub open spec fn pow16(n: nat) -> nat
    decreases n,
{
    if n == 0 {
        1
    } else {
        16 * pow16((n - 1) as nat)
    }
}

/// Digit `i`, from the left, of a 64-bit number written with sixteen hexadecimal digits.
pub open spec fn uid_digit(uid: u64, i: int) -> int {
    (uid as int / pow16((15 - i) as nat) as int) % 16
}

/// `n` in decimal, in ASCII.
pub open spec fn ascii_decimal(n: nat) -> Seq<u8>
    decreases n,
{
    if n < 10 {
        seq![(48 + n) as u8]
    } else {
        ascii_decimal(n / 10).push((48 + n % 10) as u8)
    }
}

/// `"<uid hex>:<instance>"` in ASCII, the instance in decimal.
pub open spec fn serial_of(uid: u64, instance: u8) -> Seq<u8> {
    Seq::new(16, |i: int| hex_digit(uid_digit(uid, i))) + seq![58u8] + ascii_decimal(
        instance as nat,
    )
}

/// Append `n` in decimal, in ASCII.
fn push_ascii_decimal(out: &mut Vec<u8>, n: u8)
    ensures
        final(out)@ == old(out)@ + ascii_decimal(n as nat),
    decreases n,
{
    let ghost before = out@;
    if n >= 10 {
        push_ascii_decimal(out, n / 10);
    }
    out.push(48 + n % 10);
    assert(out@ =~= before + ascii_decimal(n as nat));
}

/// Shifting by four bits divides by sixteen.
proof fn lemma_shift_is_division(uid: u64, n: u64)
    requires
        n <= 15,
    ensures
        uid >> ((4 * n) as u64) == uid as int / pow16(n as nat) as int,
        pow16(n as nat) > 0,
    decreases n,
{
    if n == 0 {
        assert(uid >> 0u64 == uid) by (bit_vector);
    } else {
        let less: u64 = (n - 1) as u64;
        lemma_shift_is_division(uid, less);
        assert(1 <= n <= 15 && less == n - 1 ==> uid >> ((4 * n) as u64) == (uid >> ((4 * less)
            as u64)) / 16) by (bit_vector);
        let p = pow16(less as nat) as int;
        let u = uid as int;
        assert((u / p) / 16 == u / (16 * p)) by (nonlinear_arith)
            requires
                p > 0,
                u >= 0,
        ;
    }
}

/// The serial of one probe instance: the device's unique id in hexadecimal, a colon,
/// and the instance in decimal, in ASCII.
pub fn format_serial(uid: u64, instance: u8) -> (r: Vec<u8>)
    ensures
        r@ == serial_of(uid, instance),
        18 <= r@.len() <= 20,
{
    let mut out: Vec<u8> = Vec::new();
    let mut i: usize = 0;
    while i < 16
        invariant
            i <= 16,
            out@ == Seq::new(i as nat, |i: int| hex_digit(uid_digit(uid, i))),
        decreases 16 - i,
    {
        let places: u64 = 15 - i as u64;
        let shift: u64 = 4 * places;
        let digit: u64 = (uid >> shift) & 0xf;
        proof {
            lemma_shift_is_division(uid, places);
            let shifted: u64 = uid >> shift;
            assert(shifted & 0xf == shifted % 16) by (bit_vector);
        }
        let code: u8 = if digit < 10 {
            48 + digit as u8
        } else {
            55 + digit as u8
        };
        out.push(code);
        i = i + 1;
        assert(out@ =~= Seq::new(i as nat, |i: int| hex_digit(uid_digit(uid, i))));
    }
    out.push(58);
    push_ascii_decimal(&mut out, instance);
    assert(out@ =~= serial_of(uid, instance));
    proof {
        reveal_with_fuel(ascii_decimal, 3);
    }
    out
}

/// Who answers a DAP request.
#[derive(Debug, PartialEq, Eq)]
pub enum DapRoute {
    /// This is the response.
    Respond(Vec<u8>),
    /// The config service.
    Vendor,
    /// The CMSIS-DAP command processor.
    Dap,
}

/// The DAP_Info command.
pub const DAP_INFO: u8 = 0x00;

/// The serial number among the DAP_Info requests.
pub const DAP_INFO_SERIAL: u8 = 0x03;

/// A request asks for the serial number.
pub open spec fn asks_for_serial(request: Seq<u8>) -> bool {
    request.len() >= 2 && request[0] == DAP_INFO && request[1] == DAP_INFO_SERIAL
}

/// A request is a vendor command.
pub open spec fn is_vendor(request: Seq<u8>) -> bool {
    request.len() > 0 && VENDOR_BASE <= request[0] <= VENDOR_END
}

/// The answer to a request for the serial number: its length with the final zero, and
/// the serial number with that zero.
pub open spec fn serial_response(serial: Seq<u8>) -> Seq<u8> {
    seq![DAP_INFO, (serial.len() + 1) as u8] + serial + seq![0u8]
}

/// Decide who answers a request. The serial number, which tells the instances of
/// one probe apart, is answered here, and the vendor commands go to the config service.
pub fn process_request(request: &[u8], serial: &[u8]) -> (r: DapRoute)
    requires
        serial@.len() + 3 <= PACKET_SIZE,
    ensures
        r matches DapRoute::Respond(response) ==> response@ == serial_response(serial@),
        r is Respond <==> asks_for_serial(request@),
        r is Vendor <==> is_vendor(request@),
{
    if request.len() >= 2 && request[0] == DAP_INFO && request[1] == DAP_INFO_SERIAL {
        let mut response: Vec<u8> = vec![DAP_INFO, serial.len() as u8 + 1];
        append_range(&mut response, serial, 0, serial.len());
        response.push(0);
        assert(response@ =~= seq![DAP_INFO, (serial@.len() + 1) as u8] + serial@ + seq![0u8]);
        return DapRoute::Respond(response);
    }
    if request.len() > 0 && VENDOR_BASE <= request[0] && request[0] <= VENDOR_END {
        DapRoute::Vendor
    } else {
        DapRoute::Dap
    }
}

/// Numbers with the same first sixteen less `n` digits are the same when their last
/// `n` digits are dropped.
proof fn lemma_same_digits(a: u64, b: u64, n: nat)
    requires
        n <= 15,
        forall|i: int| 0 <= i < 16 ==> #[trigger] uid_digit(a, i) == uid_digit(b, i),
    ensures
        a as int / pow16(n) as int == b as int / pow16(n) as int,
    decreases 15 - n,
{
    let x = a as int;
    let y = b as int;
    lemma_shift_is_division(a, n as u64);
    let p = pow16(n) as int;
    assert(uid_digit(a, 15 - n) == uid_digit(b, 15 - n));
    if n == 15 {
        lemma_shift_is_division(b, n as u64);
        let shift: u64 = (4 * n) as u64;
        assert(shift == 60);
        assert(a >> 60u64 < 16) by (bit_vector);
        assert(b >> 60u64 < 16) by (bit_vector);
    } else {
        lemma_same_digits(a, b, n + 1);
        assert(x / (16 * p) == (x / p) / 16 && y / (16 * p) == (y / p) / 16) by (nonlinear_arith)
            requires
                p > 0,
                x >= 0,
                y >= 0,
        ;
    }
}

/// Decimal notation tells numbers apart.
proof fn lemma_ascii_decimal_unique(a: nat, b: nat)
    requires
        ascii_decimal(a) == ascii_decimal(b),
    ensures
        a == b,
    decreases a,
{
    reveal_with_fuel(ascii_decimal, 2);
    let s = ascii_decimal(a);
    let t = ascii_decimal(b);
    assert(s.last() == (48 + a % 10) as u8);
    assert(t.last() == (48 + b % 10) as u8);
    if a >= 10 && b >= 10 {
        assert(s.drop_last() =~= ascii_decimal(a / 10));
        assert(t.drop_last() =~= ascii_decimal(b / 10));
        lemma_ascii_decimal_unique(a / 10, b / 10);
    }
}

/// A serial tells the devices apart, and the instances of each.
pub proof fn serials_are_unique(uid: u64, instance: u8, other_uid: u64, other: u8)
    requires
        serial_of(uid, instance) == serial_of(other_uid, other),
    ensures
        uid == other_uid,
        instance == other,
{
    let s = serial_of(uid, instance);
    let t = serial_of(other_uid, other);
    assert(s.skip(17) =~= ascii_decimal(instance as nat));
    assert(t.skip(17) =~= ascii_decimal(other as nat));
    lemma_ascii_decimal_unique(instance as nat, other as nat);
    assert forall|i: int| 0 <= i < 16 implies #[trigger] uid_digit(uid, i) == uid_digit(
        other_uid,
        i,
    ) by {
        assert(s[i] == hex_digit(uid_digit(uid, i)));
        assert(t[i] == hex_digit(uid_digit(other_uid, i)));
    }
    lemma_same_digits(uid, other_uid, 0);
    assert(pow16(0) == 1);
    assert(uid as int / 1 == uid as int);
    assert(other_uid as int / 1 == other_uid as int);
}

/// The number that a hexadecimal digit in upper case stands for.
pub open spec fn hex_value(code: u8) -> int {
    if code <= 57 {
        code - 48
    } else {
        code - 55
    }
}

/// The number that hexadecimal digits spell, the first being the highest.
pub open spec fn hex_number(digits: Seq<u8>) -> int
    decreases digits.len(),
{
    if digits.len() == 0 {
        0
    } else {
        16 * hex_number(digits.drop_last()) + hex_value(digits.last())
    }
}

/// The first digits of a serial spell the upper part of the unique id.
proof fn lemma_upper_digits(uid: u64, instance: u8, n: nat)
    requires
        n <= 16,
    ensures
        n == 0 ==> hex_number(serial_of(uid, instance).take(n as int)) == 0,
        n > 0 ==> hex_number(serial_of(uid, instance).take(n as int)) == uid as int / pow16(
            (16 - n) as nat,
        ) as int,
    decreases n,
{
    let serial = serial_of(uid, instance);
    if n > 0 {
        let less = (n - 1) as nat;
        lemma_upper_digits(uid, instance, less);
        assert(serial.take(n as int).drop_last() =~= serial.take(less as int));
        let low = (16 - n) as nat;
        lemma_shift_is_division(uid, low as u64);
        let u = uid as int;
        let p = pow16(low) as int;
        assert(serial[less as int] == hex_digit(uid_digit(uid, less as int)));
        assert(hex_value(serial[less as int]) == (u / p) % 16);
        if n == 1 {
            let shift: u64 = (4 * low) as u64;
            assert(shift == 60);
            assert(uid >> 60u64 < 16) by (bit_vector);
        } else {
            assert(pow16(low + 1) == 16 * pow16(low));
            assert(u / (16 * p) == (u / p) / 16) by (nonlinear_arith)
                requires
                    p > 0,
                    u >= 0,
            ;
        }
    }
}

/// A serial is sixteen hexadecimal digits in upper case that spell the unique id, a colon,
/// and the instance in decimal without leading zeros.
pub proof fn serials_spell_uid_and_instance(uid: u64, instance: u8, i: int)
    ensures
        ({
            let serial = serial_of(uid, instance);
            let n = serial.len() as int;
            &&& hex_number(serial.take(16)) == uid
            &&& 0 <= i < 16 ==> 48 <= serial[i] <= 57 || 65 <= serial[i] <= 70
            &&& serial[16] == 58
            &&& instance < 10 ==> n == 18
            &&& 10 <= instance < 100 ==> n == 19
            &&& instance >= 100 ==> n == 20
            &&& serial[n - 1] == 48 + instance % 10
            &&& instance >= 10 ==> serial[n - 2] == 48 + (instance / 10) % 10
            &&& instance >= 100 ==> serial[n - 3] == 48 + instance / 100
        }),
{
    let serial = serial_of(uid, instance);
    lemma_upper_digits(uid, instance, 16);
    assert(pow16(0) == 1);
    assert(uid as int / 1 == uid as int);
    reveal_with_fuel(ascii_decimal, 3);
    if 0 <= i < 16 {
        assert(serial[i] == hex_digit(uid_digit(uid, i)));
    }
}

/// A stored topology that is valid is booted, without a fault. In every other case the
/// default topology is, and that is reported as a fault.
pub proof fn valid_topologies_are_booted(
    stored: Option<TopologySpec>,
    chip: ChipLimits,
    profile: BoardProfile,
)
    ensures
        booted(stored, chip, profile).1 <==> !(stored matches Some(topology) && topology.verdict(
            chip,
            profile,
        ) is Ok),
        !booted(stored, chip, profile).1 ==> stored == Some(booted(stored, chip, profile).0),
        booted(stored, chip, profile).1 ==> ({
            let topology = booted(stored, chip, profile).0;
            &&& topology.probes.len() == 1
            &&& topology.probes[0].swclk == 2
            &&& topology.probes[0].swdio == 3
            &&& topology.probes[0].reset == Some(1u8)
            &&& topology.uarts.len() == 1
            &&& topology.uarts[0].tx == 4
            &&& topology.uarts[0].rx == 5
            &&& topology.uarts[0].baud == 115200
        }),
{
}

/// A stored profile is booted as it is; without one the board is a bare Pico.
pub proof fn stored_profiles_are_booted(stored: Option<BoardProfile>)
    ensures
        stored matches Some(profile) ==> booted_profile(stored) == profile,
        stored is None ==> booted_profile(stored).available == 0x1FFF_FFFF && booted_profile(
            stored,
        ).reserved == 0x2380_0000,
{
}

/// The firmware reports what it was built for and what it runs, under protocol version 2.
pub proof fn reports_are_true(
    chip: Chip,
    limits: ChipLimits,
    version: (u8, u8, u8),
    active: TopologySpec,
    fault: bool,
)
    requires
        active.probes.len() <= 12,
        active.uarts.len() <= 2,
    ensures
        ({
            let info = reported(chip, limits, version, active, fault);
            &&& info.protocol_version == 2
            &&& info.firmware_version == version
            &&& info.chip == chip
            &&& info.limits == limits
            &&& info.active_probes == active.probes.len()
            &&& info.active_uarts == active.uarts.len()
            &&& info.config_fault == fault
        }),
{
}

/// The requests for the serial number and the commands from 0x80 to 0x9F are taken out of
/// the DAP stream, and are never both. A serial number goes out behind its length, with a
/// zero at its end.
pub proof fn requests_are_routed(request: Seq<u8>, serial: Seq<u8>, i: int)
    requires
        serial.len() <= 61,
    ensures
        is_vendor(request) <==> request.len() >= 1 && 0x80 <= request[0] < 0xA0,
        asks_for_serial(request) <==> request.len() >= 2 && request[0] == 0 && request[1] == 3,
        serial_response(serial).len() == serial.len() + 3,
        serial_response(serial)[0] == 0,
        serial_response(serial)[1] == serial.len() + 1,
        0 <= i < serial.len() ==> serial_response(serial)[2 + i] == serial[i],
        serial_response(serial).last() == 0,
{
}

} // verus!
