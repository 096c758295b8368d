//! What the command line tool decides and prints.

use vstd::prelude::*;
use vstd::string::*;

use crate::board_toml;
use crate::board_toml::format_pin_ranges;
use crate::config::{BoardProfile, Topology, TopologySpec, ValidationError};
use crate::fixed_vec::{probe_slice, uart_slice};
use crate::protocol::{Chip, FirmwareInfo, CMD_REBOOT, PROFILE_PROTOCOL_VERSION};
use crate::session;
use crate::session::{reboot_request, set_topology};
use crate::text;
use crate::text::{chars_of, push_decimal, trim_bounds};
use crate::transport;
use crate::transport::DeviceSummary;
use crate::wire;

verus! {

/// What is assumed of the board of a device, if anything.
pub open spec fn assumed_for(info: FirmwareInfo) -> Option<BoardProfile> {
    if info.protocol_version >= PROFILE_PROTOCOL_VERSION {
        None
    } else {
        Some(BoardProfile::pico())
    }
}

/// The board profile to assume for a device: that of a bare Pico for firmware that
/// predates board profiles. `None` where the device is to be asked.
pub fn assumed_profile(info: &FirmwareInfo) -> (r: Option<BoardProfile>)
    ensures
        r == assumed_for(*info),
{
    if info.protocol_version >= PROFILE_PROTOCOL_VERSION {
        None
    } else {
        Some(BoardProfile::pico())
    }
}

/// Why a board profile is not sent to a device.
#[derive(Debug, Clone, Copy, PartialEq, Eq, Structural)]
pub enum SetBoardError {
    /// The firmware, with this protocol version, predates board profiles.
    FirmwareTooOld(u8),
    /// The profile is not valid for the device's chip.
    Invalid(ValidationError),
}

/// What is said of sending a board profile to a device.
pub open spec fn board_verdict(profile: BoardProfile, info: FirmwareInfo) -> Result<
    (),
    SetBoardError,
> {
    if info.protocol_version < PROFILE_PROTOCOL_VERSION {
        Err(SetBoardError::FirmwareTooOld(info.protocol_version))
    } else {
        match profile.verdict(info.limits) {
            Ok(()) => Ok(()),
            Err(e) => Err(SetBoardError::Invalid(e)),
        }
    }
}

/// Whether a board profile may be sent to a device.
pub fn check_board(profile: &BoardProfile, info: &FirmwareInfo) -> (r: Result<(), SetBoardError>)
    ensures
        r == board_verdict(*profile, *info),
{
    if info.protocol_version < PROFILE_PROTOCOL_VERSION {
        return Err(SetBoardError::FirmwareTooOld(info.protocol_version));
    }
    match profile.validate(&info.limits) {
        Ok(()) => Ok(()),
        Err(e) => Err(SetBoardError::Invalid(e)),
    }
}

/// Why a topology violates a board profile on a device, if it does.
pub open spec fn violation(
    topology: TopologySpec,
    info: FirmwareInfo,
    profile: BoardProfile,
) -> Option<ValidationError> {
    match topology.verdict(info.limits, profile) {
        Ok(()) => None,
        Err(e) => Some(e),
    }
}

/// What a new board profile breaks: why the active topology violates it, if it does.
/// The probe then falls back to its default topology at the next boot.
pub fn broken_by(topology: &Topology, info: &FirmwareInfo, profile: &BoardProfile) -> (r: Option<
    ValidationError,
>)
    ensures
        r == violation(topology@, *info, *profile),
{
    match topology.validate(&info.limits, profile) {
        Ok(()) => None,
        Err(e) => Some(e),
    }
}

/// The packets that write an encoded topology, and reboot the device if that is wanted.
pub open spec fn write_packets(encoded: Seq<u8>, reboot: bool) -> Seq<Seq<u8>> {
    session::set_requests(encoded) + if reboot {
        seq![seq![CMD_REBOOT]]
    } else {
        Seq::empty()
    }
}

/// The packets that write a topology to a device, and reboot it if that is wanted:
/// none, unless the topology is valid for the device's chip and board profile.
pub fn set_commands(
    topology: &Topology,
    info: &FirmwareInfo,
    profile: &BoardProfile,
    reboot: bool,
) -> (r: Result<Vec<Vec<u8>>, ValidationError>)
    ensures
        match r {
            Err(e) => topology@.verdict(info.limits, *profile) == Err::<(), ValidationError>(e),
            Ok(requests) => topology@.verdict(info.limits, *profile) is Ok && session::packets(
                requests@,
            ) == write_packets(wire::topology_encoding(topology@), reboot)
                && session::have_commands(session::packets(requests@)),
        },
{
    topology.validate(&info.limits, profile)?;
    let mut requests: Vec<Vec<u8>> = match set_topology(topology) {
        Ok(requests) => requests,
        Err(_) => Vec::new(),
    };
    let ghost written = session::packets(requests@);
    if reboot {
        let request: Vec<u8> = reboot_request();
        requests.push(request);
        assert(session::packets(requests@) =~= written + seq![seq![CMD_REBOOT]]);
        assert forall|i: int| 0 <= i < requests@.len() implies (#[trigger] session::packets(
            requests@,
        )[i]).len() > 0 by {
            if i < written.len() {
                assert(written[i].len() > 0);
            }
        }
    } else {
        assert(session::packets(requests@) =~= written + Seq::<Seq<u8>>::empty());
    }
    Ok(requests)
}

/// A line with a label and a number.
pub open spec fn number_line(label: Seq<char>, n: nat) -> Seq<char> {
    label + text::decimal(n) + "\n"@
}

/// The name of a chip.
pub open spec fn chip_name(chip: Chip) -> Seq<char> {
    match chip {
        Chip::Rp2040 => "Rp2040"@,
        Chip::Rp2350 => "Rp2350"@,
    }
}

/// Firmware information for the screen.
pub open spec fn info_lines(info: FirmwareInfo) -> Seq<char> {
    let (major, minor, patch) = info.firmware_version;
    let limits = info.limits;
    "chip:             "@ + chip_name(info.chip) + "\n"@ + "firmware version: "@ + text::decimal(
        major as nat,
    ) + "."@ + text::decimal(minor as nat) + "."@ + text::decimal(patch as nat) + "\n"@
        + number_line("protocol version: "@, info.protocol_version as nat) + number_line(
        "active probes:    "@,
        info.active_probes as nat,
    ) + number_line("active uarts:     "@, info.active_uarts as nat) + "config fault:     "@
        + if info.config_fault {
        "true\n"@
    } else {
        "false\n"@
    } + "limits:\n"@ + number_line("  gpio count:     "@, limits.gpio_count as nat) + number_line(
        "  pio blocks:     "@,
        limits.pio_blocks as nat,
    ) + number_line("  sms per block:  "@, limits.sms_per_block as nat) + number_line(
        "  ep numbers/dir: "@,
        limits.ep_numbers_per_dir as nat,
    ) + number_line("  pio pin window: "@, limits.pio_pin_window as nat)
}

/// Append a line with a label and a number.
fn push_line(out: &mut String, label: &str, n: u8)
    ensures
        final(out)@ == old(out)@ + number_line(label@, n as nat),
{
    let ghost before = out@;
    out.append(label);
    push_decimal(out, n as u64);
    out.append("\n");
    assert(out@ =~= before + number_line(label@, n as nat));
}

/// Firmware information for the screen.
pub fn info_text(info: &FirmwareInfo) -> (r: String)
    ensures
        r@ == info_lines(*info),
{
    let (major, minor, patch) = info.firmware_version;
    let mut out = String::from_str("chip:             ");
    match info.chip {
        Chip::Rp2040 => out.append("Rp2040"),
        Chip::Rp2350 => out.append("Rp2350"),
    }
    out.append("\n");
    out.append("firmware version: ");
    push_decimal(&mut out, major as u64);
    out.append(".");
    push_decimal(&mut out, minor as u64);
    out.append(".");
    push_decimal(&mut out, patch as u64);
    out.append("\n");
    push_line(&mut out, "protocol version: ", info.protocol_version);
    push_line(&mut out, "active probes:    ", info.active_probes);
    push_line(&mut out, "active uarts:     ", info.active_uarts);
    out.append("config fault:     ");
    if info.config_fault {
        out.append("true\n");
    } else {
        out.append("false\n");
    }
    out.append("limits:\n");
    push_line(&mut out, "  gpio count:     ", info.limits.gpio_count);
    push_line(&mut out, "  pio blocks:     ", info.limits.pio_blocks);
    push_line(&mut out, "  sms per block:  ", info.limits.sms_per_block);
    push_line(&mut out, "  ep numbers/dir: ", info.limits.ep_numbers_per_dir);
    push_line(&mut out, "  pio pin window: ", info.limits.pio_pin_window);
    out
}

/// A board profile for the screen.
pub open spec fn profile_lines(profile: BoardProfile) -> Seq<char> {
    "board profile:\n  available:      "@ + board_toml::mask_text(profile.available)
        + "\n  reserved:       "@ + board_toml::mask_text(profile.reserved) + "\n"@
}

/// What is said after a topology with so many probes and bridges was written.
pub open spec fn written_line(probes: nat, uarts: nat) -> Seq<char> {
    "topology written ("@ + text::decimal(probes) + " probes, "@ + text::decimal(uarts)
        + " uarts)\n"@
}

/// A board profile for the screen.
pub fn profile_text(profile: &BoardProfile) -> (r: String)
    ensures
        r@ == profile_lines(*profile),
{
    let mut out = String::from_str("board profile:\n  available:      ");
    out.append(format_pin_ranges(profile.available).as_str());
    out.append("\n  reserved:       ");
    out.append(format_pin_ranges(profile.reserved).as_str());
    out.append("\n");
    out
}

/// An attached device for the screen.
pub open spec fn summary_lines(summary: DeviceSummary) -> Seq<char> {
    (match transport::text_of(summary.serial) {
        Some(serial) => serial,
        None => "<no serial>"@,
    }) + "\n  product:    "@ + (match transport::text_of(summary.product) {
        Some(product) => product,
        None => "?"@,
    }) + "\n  interfaces: "@ + text::decimal(summary.dap_interfaces@.len()) + " CMSIS-DAP\n"@
}

/// An attached device for the screen.
pub fn summary_text(summary: &DeviceSummary) -> (r: String)
    ensures
        r@ == summary_lines(*summary),
{
    let mut out = String::new();
    assert(out@ =~= Seq::<char>::empty());
    match &summary.serial {
        Some(serial) => out.append(serial.as_str()),
        None => out.append("<no serial>"),
    }
    assert(out@ =~= match transport::text_of(summary.serial) {
        Some(serial) => serial,
        None => "<no serial>"@,
    });
    out.append("\n  product:    ");
    match &summary.product {
        Some(product) => out.append(product.as_str()),
        None => out.append("?"),
    }
    out.append("\n  interfaces: ");
    push_decimal(&mut out, summary.dap_interfaces.len() as u64);
    out.append(" CMSIS-DAP\n");
    out
}

/// Whether a text has nothing but white space.
pub fn is_blank(text: &str) -> (r: bool)
    ensures
        r == (text::trim(text@).len() == 0),
        r == text::blank(text@),
{
    proof {
        text::only_blanks_trim_to_nothing(text@);
    }
    let chars = chars_of(text);
    let (from, to) = trim_bounds(&chars, 0, chars.len());
    assert(text@.subrange(0, text@.len() as int) =~= text@);
    from == to
}

/// What is said after a topology was written.
pub fn written_text(topology: &Topology) -> (r: String)
    ensures
        r@ == written_line(topology@.probes.len(), topology@.uarts.len()),
{
    let mut out = String::from_str("topology written (");
    push_decimal(&mut out, probe_slice(&topology.probes).len() as u64);
    out.append(" probes, ");
    push_decimal(&mut out, uart_slice(&topology.uarts).len() as u64);
    out.append(" uarts)\n");
    out
}

/// Firmware of protocol version 2 and later is asked for its board profile and may be sent
/// one that suits its chip. Earlier firmware runs on a bare Pico, and is sent none.
pub proof fn old_firmware_has_no_profile(profile: BoardProfile, info: FirmwareInfo)
    ensures
        assumed_for(info) is None <==> info.protocol_version >= 2,
        assumed_for(info) matches Some(assumed) ==> assumed.available == 0x1FFF_FFFF
            && assumed.reserved == 0x2380_0000,
        info.protocol_version < 2 ==> board_verdict(profile, info) == Err::<(), SetBoardError>(
            SetBoardError::FirmwareTooOld(info.protocol_version),
        ),
        board_verdict(profile, info) is Ok <==> info.protocol_version >= 2 && profile.verdict(
            info.limits,
        ) is Ok,
        info.protocol_version >= 2 ==> (profile.verdict(info.limits) matches Err(e)
            ==> board_verdict(profile, info) == Err::<(), SetBoardError>(
            SetBoardError::Invalid(e),
        )),
{
}

/// A write that reboots is the same write with the reboot command behind it.
pub proof fn reboots_come_last(encoded: Seq<u8>)
    ensures
        write_packets(encoded, false) == session::set_requests(encoded),
        write_packets(encoded, true).drop_last() == session::set_requests(encoded),
        write_packets(encoded, true).last() == seq![0x84u8],
{
}

/// No line break stands in a label and a number.
proof fn lemma_one_line(label: Seq<char>, n: nat)
    requires
        !label.contains('\n'),
    ensures
        !(label + text::decimal(n)).contains('\n'),
{
    text::lemma_decimal(n);
    let line = label + text::decimal(n);
    assert forall|i: int| 0 <= i < line.len() implies line[i] != '\n' by {
        if i < label.len() {
            assert(label.contains(label[i]));
        } else {
            assert(text::is_digit(text::decimal(n)[i - label.len()]));
        }
    }
}

/// The lines of firmware information, without their line breaks. Nothing follows the last.
pub open spec fn information(info: FirmwareInfo) -> Seq<Seq<char>> {
    let version = info.firmware_version;
    seq![
        "chip:             "@ + chip_name(info.chip),
        "firmware version: "@ + text::decimal(version.0 as nat) + seq!['.'] + text::decimal(
            version.1 as nat,
        ) + seq!['.'] + text::decimal(version.2 as nat),
        "protocol version: "@ + text::decimal(info.protocol_version as nat),
        "active probes:    "@ + text::decimal(info.active_probes as nat),
        "active uarts:     "@ + text::decimal(info.active_uarts as nat),
        "config fault:     "@ + if info.config_fault {
            "true"@
        } else {
            "false"@
        },
        "limits:"@,
        "  gpio count:     "@ + text::decimal(info.limits.gpio_count as nat),
        "  pio blocks:     "@ + text::decimal(info.limits.pio_blocks as nat),
        "  sms per block:  "@ + text::decimal(info.limits.sms_per_block as nat),
        "  ep numbers/dir: "@ + text::decimal(info.limits.ep_numbers_per_dir as nat),
        "  pio pin window: "@ + text::decimal(info.limits.pio_pin_window as nat),
        Seq::empty(),
    ]
}

/// Firmware information takes a line for each of its fields, with the field behind a label.
#[verifier::rlimit(60)]
pub proof fn information_is_shown_line_by_line(info: FirmwareInfo)
    ensures
        text::split(info_lines(info), '\n') == information(info),
{
    reveal_strlit("chip:             ");
    reveal_strlit("Rp2040");
    reveal_strlit("Rp2350");
    reveal_strlit("firmware version: ");
    reveal_strlit(".");
    reveal_strlit("\n");
    reveal_strlit("protocol version: ");
    reveal_strlit("active probes:    ");
    reveal_strlit("active uarts:     ");
    reveal_strlit("config fault:     ");
    reveal_strlit("true");
    reveal_strlit("false");
    reveal_strlit("true\n");
    reveal_strlit("false\n");
    reveal_strlit("limits:");
    reveal_strlit("limits:\n");
    reveal_strlit("  gpio count:     ");
    reveal_strlit("  pio blocks:     ");
    reveal_strlit("  sms per block:  ");
    reveal_strlit("  ep numbers/dir: ");
    reveal_strlit("  pio pin window: ");
    let lines = information(info);
    let version = info.firmware_version;
    lemma_one_line("firmware version: "@, version.0 as nat);
    let first = "firmware version: "@ + text::decimal(version.0 as nat) + seq!['.'];
    lemma_one_line(first, version.1 as nat);
    lemma_one_line(first + text::decimal(version.1 as nat) + seq!['.'], version.2 as nat);
    lemma_one_line("protocol version: "@, info.protocol_version as nat);
    lemma_one_line("active probes:    "@, info.active_probes as nat);
    lemma_one_line("active uarts:     "@, info.active_uarts as nat);
    lemma_one_line("  gpio count:     "@, info.limits.gpio_count as nat);
    lemma_one_line("  pio blocks:     "@, info.limits.pio_blocks as nat);
    lemma_one_line("  sms per block:  "@, info.limits.sms_per_block as nat);
    lemma_one_line("  ep numbers/dir: "@, info.limits.ep_numbers_per_dir as nat);
    lemma_one_line("  pio pin window: "@, info.limits.pio_pin_window as nat);
    assert forall|i: int| 0 <= i < lines.len() implies !(#[trigger] lines[i]).contains('\n') by {
    }
    assert(text::join(lines, '\n') =~= info_lines(info)) by {
        lemma_join_lines(lines);
    }
    text::lemma_split_join(lines, '\n');
}

/// Thirteen lines put together.
proof fn lemma_join_lines(lines: Seq<Seq<char>>)
    requires
        lines.len() == 13,
        lines[12].len() == 0,
    ensures
        text::join(lines, '\n') == lines[0] + seq!['\n'] + lines[1] + seq!['\n'] + lines[2]
            + seq!['\n'] + lines[3] + seq!['\n'] + lines[4] + seq!['\n'] + lines[5] + seq!['\n']
            + lines[6] + seq!['\n'] + lines[7] + seq!['\n'] + lines[8] + seq!['\n'] + lines[9]
            + seq!['\n'] + lines[10] + seq!['\n'] + lines[11] + seq!['\n'],
{
    lemma_join_grows(lines, 1);
    lemma_join_grows(lines, 2);
    lemma_join_grows(lines, 3);
    lemma_join_grows(lines, 4);
    lemma_join_grows(lines, 5);
    lemma_join_grows(lines, 6);
    lemma_join_grows(lines, 7);
    lemma_join_grows(lines, 8);
    lemma_join_grows(lines, 9);
    lemma_join_grows(lines, 10);
    lemma_join_grows(lines, 11);
    lemma_join_grows(lines, 12);
    assert(text::join(lines.take(1), '\n') == lines[0]);
    assert(lines.take(13) =~= lines);
    let before = text::join(lines.take(12), '\n') + seq!['\n'];
    assert(before + lines[12] =~= before);
}

/// One more line is put behind a line break.
proof fn lemma_join_grows(lines: Seq<Seq<char>>, n: int)
    requires
        1 <= n < lines.len(),
    ensures
        text::join(lines.take(n + 1), '\n') == text::join(lines.take(n), '\n') + seq!['\n']
            + lines[n],
{
    assert(lines.take(n + 1) =~= lines.take(n).push(lines[n]));
    text::lemma_join_push(lines.take(n), lines[n], '\n');
}

/// A profile is shown as the pin ranges of its available and of its reserved pins, and what is
/// said of a written topology holds the numbers of its probes and bridges.
pub proof fn profiles_and_counts_are_shown(profile: BoardProfile, probes: nat, uarts: nat)
    ensures
        ({
            let lines = profile_lines(profile);
            let available = board_toml::mask_text(profile.available);
            let reserved = board_toml::mask_text(profile.reserved);
            let n = text::decimal(probes).len();
            &&& lines.len() == 53 + available.len() + reserved.len()
            &&& lines.subrange(33, 33int + available.len()) == available
            &&& lines.subrange(lines.len() - 1 - reserved.len(), lines.len() - 1) == reserved
            &&& written_line(probes, uarts).subrange(18, 18 + n as int) == text::decimal(probes)
            &&& written_line(probes, uarts).subrange(
                27 + n as int,
                27 + n as int + text::decimal(uarts).len(),
            ) == text::decimal(uarts)
        }),
{
    reveal_strlit("board profile:\n  available:      ");
    reveal_strlit("\n  reserved:       ");
    reveal_strlit("\n");
    reveal_strlit("topology written (");
    reveal_strlit(" probes, ");
    let lines = profile_lines(profile);
    let available = board_toml::mask_text(profile.available);
    let reserved = board_toml::mask_text(profile.reserved);
    let n = text::decimal(probes).len() as int;
    let written = written_line(probes, uarts);
    assert(lines.subrange(33, 33int + available.len()) =~= available);
    assert(lines.subrange(lines.len() - 1 - reserved.len(), lines.len() - 1) =~= reserved);
    assert(written.subrange(18, 18 + n) =~= text::decimal(probes));
    assert(written.subrange(27 + n, 27 + n + text::decimal(uarts).len()) =~= text::decimal(uarts));
}

/// A device is shown with its serial in front, its product on the next line, and the number
/// of its CMSIS-DAP interfaces at the end.
pub proof fn devices_are_shown(summary: DeviceSummary)
    ensures
        ({
            let lines = summary_lines(summary);
            let count = text::decimal(summary.dap_interfaces@.len());
            let end = lines.len() - 11;
            &&& lines.subrange(end - count.len(), end as int) == count
            &&& transport::text_of(summary.serial) matches Some(serial) ==> {
                &&& lines.take(serial.len() as int) == serial
                &&& transport::text_of(summary.product) matches Some(product) ==> lines.subrange(
                    serial.len() as int + 15,
                    serial.len() as int + 15 + product.len(),
                ) == product
            }
        }),
{
    reveal_strlit("\n  product:    ");
    reveal_strlit("\n  interfaces: ");
    reveal_strlit(" CMSIS-DAP\n");
    let lines = summary_lines(summary);
    let count = text::decimal(summary.dap_interfaces@.len());
    let end = lines.len() - 11;
    assert(lines.subrange(end - count.len(), end as int) =~= count);
    if let Some(serial) = transport::text_of(summary.serial) {
        assert(lines.take(serial.len() as int) =~= serial);
        if let Some(product) = transport::text_of(summary.product) {
            assert(lines.subrange(
                serial.len() as int + 15,
                serial.len() as int + 15 + product.len(),
            ) =~= product);
        }
    }
}

/// A topology is broken by a profile exactly if it is not valid under it, on the chip of the
/// device.
pub proof fn violations_are_verdicts(
    topology: TopologySpec,
    info: FirmwareInfo,
    profile: BoardProfile,
)
    ensures
        violation(topology, info, profile) is None <==> topology.verdict(info.limits, profile) is Ok,
        violation(topology, info, profile) matches Some(e) ==> topology.verdict(
            info.limits,
            profile,
        ) == Err::<(), ValidationError>(e),
{
}

} // verus!
