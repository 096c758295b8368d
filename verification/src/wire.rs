//! The postcard encodings of the configuration types.
//!
//! `postcard` writes a struct as its fields one after the other, just as it
//! writes a tuple, so the calls below hand it tuples of plain values. A byte is
//! written as it is, a larger number seven bits to a byte, an option and a list with
//! a tag and a length in front, a choice of variants with the index of the variant. What
//! it makes of bytes that are no encoding is left
//! to `postcard`: decoding is named, and what is known of the names is that it
//! undoes encoding.

use vstd::prelude::*;

use crate::config::{
    BoardProfile, ChipLimits, ProbeConfig, Topology, TopologySpec, UartConfig, MAX_PROBES,
    MAX_UARTS,
};
use crate::fixed_vec::{probe_slice, push_probe, push_uart, uart_slice};
use crate::protocol::{Chip, FirmwareInfo, PROFILE_BUF_LEN};

verus! {

/// `postcard::Error`: why postcard could not encode or decode.
#[verifier::external_type_specification]
#[verifier::external_body]
pub struct ExPostcardError(postcard::Error);

/// Why a payload could not be encoded or decoded.
#[derive(Debug, PartialEq, Eq)]
pub enum WireError {
    /// The value has no encoding.
    Encode,
    /// The bytes are not an encoding of the type; this is what postcard says of them.
    Decode(String),
}

/// A probe as postcard sees it: SWCLK, SWDIO and the optional nRESET.
pub type ProbeFields = (u8, u8, Option<u8>);

/// A UART bridge as postcard sees it: TX, RX and the baud rate.
pub type UartFields = (u8, u8, u32);

/// Chip limits as postcard sees them.
pub type LimitsFields = (u8, u8, u8, u8, u8);

/// A chip as postcard sees it: the first or the second of two variants, which carry
/// nothing.
pub type ChipFields = Result<(), ()>;

/// Firmware information as postcard sees it.
pub type InfoFields = (u8, (u8, u8, u8), ChipFields, LimitsFields, u8, u8, bool);

/// A number, seven bits to a byte, the lowest first; the highest bit of a byte says
/// that more follow.
pub open spec fn varint(n: nat) -> Seq<u8>
    decreases n,
{
    if n < 128 {
        seq![n as u8]
    } else {
        seq![(128 + n % 128) as u8] + varint(n / 128)
    }
}

/// The encoding of a probe.
pub open spec fn probe_bytes(fields: ProbeFields) -> Seq<u8> {
    seq![fields.0, fields.1] + match fields.2 {
        None => seq![0u8],
        Some(reset) => seq![1u8, reset],
    }
}

/// The encoding of a bridge.
pub open spec fn uart_bytes(fields: UartFields) -> Seq<u8> {
    seq![fields.0, fields.1] + varint(fields.2 as nat)
}

/// The encodings of probes, one after the other.
pub open spec fn probes_bytes(probes: Seq<ProbeFields>) -> Seq<u8>
    decreases probes.len(),
{
    if probes.len() == 0 {
        Seq::empty()
    } else {
        probes_bytes(probes.drop_last()) + probe_bytes(probes.last())
    }
}

/// The encodings of bridges, one after the other.
pub open spec fn uarts_bytes(uarts: Seq<UartFields>) -> Seq<u8>
    decreases uarts.len(),
{
    if uarts.len() == 0 {
        Seq::empty()
    } else {
        uarts_bytes(uarts.drop_last()) + uart_bytes(uarts.last())
    }
}

/// The encoding of a list of probes followed by a list of bridges.
pub open spec fn postcard_topology(probes: Seq<ProbeFields>, uarts: Seq<UartFields>) -> Seq<u8> {
    varint(probes.len()) + probes_bytes(probes) + varint(uarts.len()) + uarts_bytes(uarts)
}

/// The encoding of the two masks of a board profile.
pub open spec fn postcard_profile(available: u64, reserved: u64) -> Seq<u8> {
    varint(available as nat) + varint(reserved as nat)
}

/// The encoding of firmware information.
pub open spec fn postcard_info(fields: InfoFields) -> Seq<u8> {
    let (version, (major, minor, patch), chip, limits, probes, uarts, fault) = fields;
    seq![
        version,
        major,
        minor,
        patch,
        if chip is Ok {
            0u8
        } else {
            1u8
        },
        limits.0,
        limits.1,
        limits.2,
        limits.3,
        limits.4,
        probes,
        uarts,
        if fault {
            1u8
        } else {
            0u8
        },
    ]
}

/// The probes and bridges that postcard decodes from bytes, or the message of its
/// error. Lengths are decoded as words of `word_bits` bits, so that an overlong one is
/// refused only where words are short.
pub uninterp spec fn postcard_topology_in(bytes: Seq<u8>, word_bits: nat) -> Result<
    (Seq<ProbeFields>, Seq<UartFields>),
    Seq<char>,
>;

/// The two masks that postcard decodes from bytes, or the message of its error.
pub uninterp spec fn postcard_profile_in(bytes: Seq<u8>) -> Result<(u64, u64), Seq<char>>;

/// The firmware information that postcard decodes from bytes, or the message of its
/// error.
pub uninterp spec fn postcard_info_in(bytes: Seq<u8>) -> Result<InfoFields, Seq<char>>;

/// `postcard::to_stdvec` on a list of probes and a list of bridges. A growing
/// buffer takes every byte, so encoding does not fail. What fits a topology decodes
/// to itself, whatever the word size of the reader.
#[verifier::external_body]
fn encode_topology_fields(probes: &Vec<ProbeFields>, uarts: &Vec<UartFields>) -> (r: Result<
    Vec<u8>,
    postcard::Error,
>)
    ensures
        r is Ok,
        r matches Ok(bytes) ==> bytes@ == postcard_topology(probes@, uarts@),
        r matches Ok(bytes) ==> (probes@.len() <= MAX_PROBES && uarts@.len() <= MAX_UARTS
            ==> postcard_topology_in(bytes@, 32) is Ok && postcard_topology_in(bytes@, 32)->Ok_0
            == (probes@, uarts@) && postcard_topology_in(bytes@, 64) is Ok
            && postcard_topology_in(bytes@, 64)->Ok_0 == (probes@, uarts@)),
{
    postcard::to_stdvec(&(probes, uarts))
}

/// `postcard::from_bytes` into fixed-capacity lists of probes and bridges: what it
/// decodes never exceeds the capacities.
#[verifier::external_body]
fn decode_topology_fields(bytes: &[u8]) -> (r: Result<
    (Vec<ProbeFields>, Vec<UartFields>),
    String,
>)
    ensures
        r is Ok == postcard_topology_in(bytes@, usize::BITS as nat) is Ok,
        r matches Ok(lists) ==> postcard_topology_in(bytes@, usize::BITS as nat)->Ok_0 == (
            lists.0@,
            lists.1@,
        ),
        r matches Ok(lists) ==> lists.0@.len() <= MAX_PROBES && lists.1@.len() <= MAX_UARTS,
        r matches Err(message) ==> postcard_topology_in(bytes@, usize::BITS as nat)->Err_0
            == message@,
{
    let decoded: Result<
        (heapless::Vec<ProbeFields, MAX_PROBES>, heapless::Vec<UartFields, MAX_UARTS>),
        postcard::Error,
    > = postcard::from_bytes(bytes);
    match decoded {
        Ok(lists) => Ok((lists.0.as_slice().to_vec(), lists.1.as_slice().to_vec())),
        Err(e) => Err(e.to_string()),
    }
}

/// `postcard::to_stdvec` on two 64-bit words. It does not fail, and what it writes
/// decodes to the same words.
#[verifier::external_body]
fn encode_profile_fields(available: u64, reserved: u64) -> (r: Result<Vec<u8>, postcard::Error>)
    ensures
        r is Ok,
        r matches Ok(bytes) ==> bytes@ == postcard_profile(available, reserved),
        r matches Ok(bytes) ==> postcard_profile_in(bytes@) is Ok && postcard_profile_in(
            bytes@,
        )->Ok_0 == (available, reserved),
{
    postcard::to_stdvec(&(available, reserved))
}

/// `postcard::from_bytes` into two 64-bit words.
#[verifier::external_body]
fn decode_profile_fields(bytes: &[u8]) -> (r: Result<(u64, u64), String>)
    ensures
        r is Ok == postcard_profile_in(bytes@) is Ok,
        r matches Ok(masks) ==> postcard_profile_in(bytes@)->Ok_0 == masks,
        r matches Err(message) ==> postcard_profile_in(bytes@)->Err_0 == message@,
{
    match postcard::from_bytes::<(u64, u64)>(bytes) {
        Ok(masks) => Ok(masks),
        Err(e) => Err(e.to_string()),
    }
}

/// `postcard::to_stdvec` on firmware information. It does not fail, and what it
/// writes decodes to the same information.
#[verifier::external_body]
fn encode_info_fields(fields: InfoFields) -> (r: Result<Vec<u8>, postcard::Error>)
    ensures
        r is Ok,
        r matches Ok(bytes) ==> bytes@ == postcard_info(fields),
        r matches Ok(bytes) ==> postcard_info_in(bytes@) is Ok && postcard_info_in(bytes@)->Ok_0
            == fields,
{
    postcard::to_stdvec(&fields)
}

/// `postcard::from_bytes` into firmware information.
#[verifier::external_body]
fn decode_info_fields(bytes: &[u8]) -> (r: Result<InfoFields, String>)
    ensures
        r is Ok == postcard_info_in(bytes@) is Ok,
        r matches Ok(fields) ==> postcard_info_in(bytes@)->Ok_0 == fields,
        r matches Err(message) ==> postcard_info_in(bytes@)->Err_0 == message@,
{
    match postcard::from_bytes::<InfoFields>(bytes) {
        Ok(fields) => Ok(fields),
        Err(e) => Err(e.to_string()),
    }
}

/// The fields of a probe.
pub open spec fn probe_fields(probe: ProbeConfig) -> ProbeFields {
    (probe.swclk, probe.swdio, probe.reset)
}

/// The fields of a bridge.
pub open spec fn uart_fields(uart: UartConfig) -> UartFields {
    (uart.tx, uart.rx, uart.baud)
}

/// The probe with these fields.
pub open spec fn probe_of(fields: ProbeFields) -> ProbeConfig {
    ProbeConfig { swclk: fields.0, swdio: fields.1, reset: fields.2 }
}

/// The bridge with these fields.
pub open spec fn uart_of(fields: UartFields) -> UartConfig {
    UartConfig { tx: fields.0, rx: fields.1, baud: fields.2 }
}

/// The encoding of a topology.
pub open spec fn topology_encoding(topology: TopologySpec) -> Seq<u8> {
    postcard_topology(
        topology.probes.map_values(|p: ProbeConfig| probe_fields(p)),
        topology.uarts.map_values(|u: UartConfig| uart_fields(u)),
    )
}

/// The topology that a reader with words of `word_bits` bits decodes from bytes.
pub open spec fn topology_decoding(bytes: Seq<u8>, word_bits: nat) -> Option<TopologySpec> {
    match postcard_topology_in(bytes, word_bits) {
        Ok((probes, uarts)) => Some(
            TopologySpec {
                probes: probes.map_values(|f: ProbeFields| probe_of(f)),
                uarts: uarts.map_values(|f: UartFields| uart_of(f)),
            },
        ),
        Err(_) => None,
    }
}

/// The fields of firmware information.
pub open spec fn info_fields(info: FirmwareInfo) -> InfoFields {
    (
        info.protocol_version,
        info.firmware_version,
        match info.chip {
            Chip::Rp2040 => Ok(()),
            Chip::Rp2350 => Err(()),
        },
        (
            info.limits.gpio_count,
            info.limits.pio_blocks,
            info.limits.sms_per_block,
            info.limits.ep_numbers_per_dir,
            info.limits.pio_pin_window,
        ),
        info.active_probes,
        info.active_uarts,
        info.config_fault,
    )
}

/// The firmware information with these fields.
pub open spec fn info_of(fields: InfoFields) -> FirmwareInfo {
    FirmwareInfo {
        protocol_version: fields.0,
        firmware_version: fields.1,
        chip: match fields.2 {
            Ok(()) => Chip::Rp2040,
            Err(()) => Chip::Rp2350,
        },
        limits: ChipLimits {
            gpio_count: fields.3.0,
            pio_blocks: fields.3.1,
            sms_per_block: fields.3.2,
            ep_numbers_per_dir: fields.3.3,
            pio_pin_window: fields.3.4,
        },
        active_probes: fields.4,
        active_uarts: fields.5,
        config_fault: fields.6,
    }
}

/// The encoding of firmware information.
pub open spec fn info_encoding(info: FirmwareInfo) -> Seq<u8> {
    postcard_info(info_fields(info))
}

/// The firmware information that is decoded from bytes.
pub open spec fn info_decoding(bytes: Seq<u8>) -> Option<FirmwareInfo> {
    match postcard_info_in(bytes) {
        Ok(fields) => Some(info_of(fields)),
        Err(_) => None,
    }
}

/// The encoding of a board profile.
pub open spec fn profile_encoding(profile: BoardProfile) -> Seq<u8> {
    postcard_profile(profile.available, profile.reserved)
}

/// The board profile that is decoded from bytes.
pub open spec fn profile_decoding(bytes: Seq<u8>) -> Option<BoardProfile> {
    match postcard_profile_in(bytes) {
        Ok((available, reserved)) => Some(BoardProfile { available, reserved }),
        Err(_) => None,
    }
}

/// Whatever its word size, a reader decodes the topology from its encoding.
/// [`topology_to_bytes`] says so of every topology that it encodes.
pub open spec fn topology_reads_back(topology: TopologySpec) -> bool {
    &&& topology_decoding(topology_encoding(topology), 32) == Some(topology)
    &&& topology_decoding(topology_encoding(topology), 64) == Some(topology)
}

/// A reader decodes the profile from its encoding. [`profile_to_bytes`] says so of
/// every profile that it encodes.
pub open spec fn profile_reads_back(profile: BoardProfile) -> bool {
    profile_decoding(profile_encoding(profile)) == Some(profile)
}

/// A reader decodes the information from its encoding. [`info_to_bytes`] says so of
/// all information that it encodes.
pub open spec fn info_reads_back(info: FirmwareInfo) -> bool {
    info_decoding(info_encoding(info)) == Some(info)
}

/// 128 to the power of `k`.
spec fn pow128(k: nat) -> nat
    decreases k,
{
    if k == 0 {
        1
    } else {
        128 * pow128((k - 1) as nat)
    }
}

/// A number below the `k`-th power of 128 takes at most `k` bytes.
proof fn lemma_varint_len(n: nat, k: nat)
    requires
        k >= 1,
        n < pow128(k),
    ensures
        1 <= varint(n).len() <= k,
    decreases k,
{
    reveal_with_fuel(pow128, 2);
    if n >= 128 {
        assert(k >= 2);
        lemma_varint_len(n / 128, (k - 1) as nat);
    }
}

/// A 32-bit number takes at most five bytes, and a 64-bit number at most ten.
proof fn lemma_word_len(n: nat)
    ensures
        n <= u32::MAX ==> 1 <= varint(n).len() <= 5,
        n <= u64::MAX ==> 1 <= varint(n).len() <= 10,
{
    assert(pow128(5) == 0x8_0000_0000) by {
        reveal_with_fuel(pow128, 6);
    }
    assert(pow128(10) == 0x40_0000_0000_0000_0000) by {
        reveal_with_fuel(pow128, 11);
    }
    if n <= u32::MAX {
        lemma_varint_len(n, 5);
    }
    if n <= u64::MAX {
        lemma_varint_len(n, 10);
    }
}

proof fn lemma_probes_len(probes: Seq<ProbeFields>)
    ensures
        probes_bytes(probes).len() <= 4 * probes.len(),
    decreases probes.len(),
{
    if probes.len() > 0 {
        lemma_probes_len(probes.drop_last());
    }
}

proof fn lemma_uarts_len(uarts: Seq<UartFields>)
    ensures
        uarts_bytes(uarts).len() <= 7 * uarts.len(),
    decreases uarts.len(),
{
    if uarts.len() > 0 {
        lemma_uarts_len(uarts.drop_last());
        lemma_word_len(uarts.last().2 as nat);
    }
}

/// Whatever fits a topology takes at most 64 bytes: a length byte and at most four
/// bytes for each probe, a length byte and at most seven for each bridge.
pub proof fn topology_encodings_are_short(topology: TopologySpec)
    requires
        topology.probes.len() <= MAX_PROBES,
        topology.uarts.len() <= MAX_UARTS,
    ensures
        topology_encoding(topology).len() <= 64,
{
    lemma_probes_len(topology.probes.map_values(|p: ProbeConfig| probe_fields(p)));
    lemma_uarts_len(topology.uarts.map_values(|u: UartConfig| uart_fields(u)));
}

/// A board profile takes at most twenty bytes.
pub proof fn profile_encodings_are_short(profile: BoardProfile)
    ensures
        profile_encoding(profile).len() <= PROFILE_BUF_LEN,
{
    lemma_word_len(profile.available as nat);
    lemma_word_len(profile.reserved as nat);
}

/// Encode a topology.
pub fn topology_to_bytes(topology: &Topology) -> (r: Result<Vec<u8>, WireError>)
    ensures
        r matches Ok(bytes) && bytes@ == topology_encoding(topology@) && bytes@.len() <= 64,
        topology_reads_back(topology@),
        topology@.probes.len() <= MAX_PROBES,
        topology@.uarts.len() <= MAX_UARTS,
{
    let probes = probe_slice(&topology.probes);
    let uarts = uart_slice(&topology.uarts);
    let mut probe_list: Vec<ProbeFields> = Vec::new();
    let mut i: usize = 0;
    while i < probes.len()
        invariant
            i <= probes@.len(),
            probe_list@ == probes@.take(i as int).map_values(|p: ProbeConfig| probe_fields(p)),
        decreases probes@.len() - i,
    {
        let p: ProbeConfig = probes[i];
        probe_list.push((p.swclk, p.swdio, p.reset));
        assert(probe_list@ =~= probes@.take(i + 1).map_values(|p: ProbeConfig| probe_fields(p)));
        i = i + 1;
    }
    let mut uart_list: Vec<UartFields> = Vec::new();
    let mut j: usize = 0;
    while j < uarts.len()
        invariant
            j <= uarts@.len(),
            uart_list@ == uarts@.take(j as int).map_values(|u: UartConfig| uart_fields(u)),
        decreases uarts@.len() - j,
    {
        let u: UartConfig = uarts[j];
        uart_list.push((u.tx, u.rx, u.baud));
        assert(uart_list@ =~= uarts@.take(j + 1).map_values(|u: UartConfig| uart_fields(u)));
        j = j + 1;
    }
    proof {
        assert(probes@.take(i as int) =~= probes@);
        assert(uarts@.take(j as int) =~= uarts@);
        assert(probe_list@.map_values(|f: ProbeFields| probe_of(f)) =~= probes@);
        assert(uart_list@.map_values(|f: UartFields| uart_of(f)) =~= uarts@);
        topology_encodings_are_short(topology@);
    }
    match encode_topology_fields(&probe_list, &uart_list) {
        Ok(bytes) => Ok(bytes),
        Err(_) => Err(WireError::Encode),
    }
}

/// Decode a topology.
pub fn topology_from_bytes(bytes: &[u8]) -> (r: Result<Topology, WireError>)
    ensures
        match r {
            Ok(topology) => topology_decoding(bytes@, usize::BITS as nat) == Some(topology@),
            Err(e) => topology_decoding(bytes@, usize::BITS as nat) is None && (
            e matches WireError::Decode(message) && message@ == postcard_topology_in(
                bytes@,
                usize::BITS as nat,
            )->Err_0),
        },
{
    let (probes, uarts) = match decode_topology_fields(bytes) {
        Ok(lists) => lists,
        Err(message) => {
            return Err(WireError::Decode(message));
        },
    };
    let ghost all_probes = probes@.map_values(|f: ProbeFields| probe_of(f));
    let ghost all_uarts = uarts@.map_values(|f: UartFields| uart_of(f));
    let mut topology = Topology::default();
    let mut i: usize = 0;
    while i < probes.len()
        invariant
            i <= probes@.len() <= MAX_PROBES,
            all_probes == probes@.map_values(|f: ProbeFields| probe_of(f)),
            topology@.probes == all_probes.take(i as int),
            topology@.uarts == Seq::<UartConfig>::empty(),
        decreases probes@.len() - i,
    {
        let (swclk, swdio, reset) = probes[i];
        let _ = push_probe(&mut topology.probes, ProbeConfig { swclk, swdio, reset });
        assert(all_probes.take(i + 1) =~= all_probes.take(i as int).push(all_probes[i as int]));
        i = i + 1;
    }
    assert(all_probes.take(i as int) =~= all_probes);
    let mut j: usize = 0;
    while j < uarts.len()
        invariant
            j <= uarts@.len() <= MAX_UARTS,
            all_uarts == uarts@.map_values(|f: UartFields| uart_of(f)),
            topology@.probes == all_probes,
            topology@.uarts == all_uarts.take(j as int),
        decreases uarts@.len() - j,
    {
        let (tx, rx, baud) = uarts[j];
        let _ = push_uart(&mut topology.uarts, UartConfig { tx, rx, baud });
        assert(all_uarts.take(j + 1) =~= all_uarts.take(j as int).push(all_uarts[j as int]));
        j = j + 1;
    }
    assert(all_uarts.take(j as int) =~= all_uarts);
    Ok(topology)
}

/// Encode a board profile.
pub fn profile_to_bytes(profile: &BoardProfile) -> (r: Result<Vec<u8>, WireError>)
    ensures
        r matches Ok(bytes) && bytes@ == profile_encoding(*profile) && bytes@.len()
            <= PROFILE_BUF_LEN,
        profile_reads_back(*profile),
{
    proof {
        profile_encodings_are_short(*profile);
    }
    match encode_profile_fields(profile.available, profile.reserved) {
        Ok(bytes) => Ok(bytes),
        Err(_) => Err(WireError::Encode),
    }
}

/// Decode a board profile.
pub fn profile_from_bytes(bytes: &[u8]) -> (r: Result<BoardProfile, WireError>)
    ensures
        match r {
            Ok(profile) => profile_decoding(bytes@) == Some(profile),
            Err(e) => profile_decoding(bytes@) is None && (e matches WireError::Decode(message)
                && message@ == postcard_profile_in(bytes@)->Err_0),
        },
{
    match decode_profile_fields(bytes) {
        Ok((available, reserved)) => Ok(BoardProfile { available, reserved }),
        Err(message) => Err(WireError::Decode(message)),
    }
}

/// Encode firmware information.
pub fn info_to_bytes(info: &FirmwareInfo) -> (r: Result<Vec<u8>, WireError>)
    ensures
        r matches Ok(bytes) && bytes@ == info_encoding(*info) && bytes@.len() == 13,
        info_reads_back(*info),
{
    let chip: ChipFields = match info.chip {
        Chip::Rp2040 => Ok(()),
        Chip::Rp2350 => Err(()),
    };
    let limits: LimitsFields = (
        info.limits.gpio_count,
        info.limits.pio_blocks,
        info.limits.sms_per_block,
        info.limits.ep_numbers_per_dir,
        info.limits.pio_pin_window,
    );
    let fields: InfoFields = (
        info.protocol_version,
        info.firmware_version,
        chip,
        limits,
        info.active_probes,
        info.active_uarts,
        info.config_fault,
    );
    assert(fields == info_fields(*info));
    match encode_info_fields(fields) {
        Ok(bytes) => Ok(bytes),
        Err(_) => Err(WireError::Encode),
    }
}

/// Decode firmware information.
pub fn info_from_bytes(bytes: &[u8]) -> (r: Result<FirmwareInfo, WireError>)
    ensures
        match r {
            Ok(info) => info_decoding(bytes@) == Some(info),
            Err(e) => info_decoding(bytes@) is None && (e matches WireError::Decode(message)
                && message@ == postcard_info_in(bytes@)->Err_0),
        },
{
    let fields = match decode_info_fields(bytes) {
        Ok(fields) => fields,
        Err(message) => {
            return Err(WireError::Decode(message));
        },
    };
    let chip = match fields.2 {
        Ok(()) => Chip::Rp2040,
        Err(()) => Chip::Rp2350,
    };
    Ok(
        FirmwareInfo {
            protocol_version: fields.0,
            firmware_version: fields.1,
            chip,
            limits: ChipLimits {
                gpio_count: fields.3.0,
                pio_blocks: fields.3.1,
                sms_per_block: fields.3.2,
                ep_numbers_per_dir: fields.3.3,
                pio_pin_window: fields.3.4,
            },
            active_probes: fields.4,
            active_uarts: fields.5,
            config_fault: fields.6,
        },
    )
}

/// The number that seven bits of each byte spell, the lowest first.
pub open spec fn sevens_value(bytes: Seq<u8>) -> nat
    decreases bytes.len(),
{
    if bytes.len() == 0 {
        0
    } else {
        (bytes[0] % 128) as nat + 128 * sevens_value(bytes.skip(1))
    }
}

/// A number is spelled by the low seven bits of its bytes; the highest bit is set in all of
/// them but the last, and no byte is spent on leading zeros.
pub proof fn varints_spell_the_number(n: nat)
    ensures
        sevens_value(varint(n)) == n,
        varint(n).len() > 0,
        varint(n).last() < 128,
        n > 0 ==> varint(n).last() > 0,
        forall|i: int| 0 <= i < varint(n).len() - 1 ==> #[trigger] varint(n)[i] >= 128,
    decreases n,
{
    let bytes = varint(n);
    if n < 128 {
        assert(bytes.skip(1) =~= Seq::empty());
        assert(sevens_value(bytes.skip(1)) == 0);
        assert(bytes[0] == n);
    } else {
        varints_spell_the_number(n / 128);
        assert(bytes.skip(1) =~= varint(n / 128));
        assert(bytes[0] == 128 + n % 128);
        assert(bytes[0] % 128 == n % 128);
        assert(bytes.last() == varint(n / 128).last());
        assert forall|i: int| 0 <= i < bytes.len() - 1 implies #[trigger] bytes[i] >= 128 by {
            if i > 0 {
                assert(bytes[i] == varint(n / 128)[i - 1]);
            }
        }
    }
}

/// Firmware information takes thirteen bytes, one for each of its numbers, in this order.
pub proof fn info_goes_out_field_by_field(info: FirmwareInfo)
    ensures
        ({
            let bytes = info_encoding(info);
            &&& bytes.len() == 13
            &&& bytes[0] == info.protocol_version
            &&& bytes[1] == info.firmware_version.0
            &&& bytes[2] == info.firmware_version.1
            &&& bytes[3] == info.firmware_version.2
            &&& bytes[4] == 0 <==> info.chip == Chip::Rp2040
            &&& bytes[4] == 1 <==> info.chip == Chip::Rp2350
            &&& bytes[5] == info.limits.gpio_count
            &&& bytes[6] == info.limits.pio_blocks
            &&& bytes[7] == info.limits.sms_per_block
            &&& bytes[8] == info.limits.ep_numbers_per_dir
            &&& bytes[9] == info.limits.pio_pin_window
            &&& bytes[10] == info.active_probes
            &&& bytes[11] == info.active_uarts
            &&& bytes[12] == 0 <==> !info.config_fault
            &&& bytes[12] == 1 <==> info.config_fault
        }),
{
}

/// A profile goes out as the mask of the available pins, then that of the reserved ones.
pub proof fn profiles_go_out_mask_by_mask(profile: BoardProfile)
    ensures
        ({
            let bytes = profile_encoding(profile);
            let n = varint(profile.available as nat).len() as int;
            &&& sevens_value(bytes.take(n)) == profile.available
            &&& sevens_value(bytes.skip(n)) == profile.reserved
        }),
{
    let bytes = profile_encoding(profile);
    let n = varint(profile.available as nat).len() as int;
    assert(bytes.take(n) =~= varint(profile.available as nat));
    assert(bytes.skip(n) =~= varint(profile.reserved as nat));
    varints_spell_the_number(profile.available as nat);
    varints_spell_the_number(profile.reserved as nat);
}

/// The encoding of probe `i` stands behind those of the probes before it.
proof fn lemma_probe_at(probes: Seq<ProbeFields>, i: int)
    requires
        0 <= i < probes.len(),
    ensures
        ({
            let at = probes_bytes(probes.take(i)).len() as int;
            let own = probe_bytes(probes[i]);
            &&& at + own.len() <= probes_bytes(probes).len()
            &&& probes_bytes(probes).subrange(at, at + own.len()) == own
        }),
    decreases probes.len(),
{
    let at = probes_bytes(probes.take(i)).len() as int;
    let own = probe_bytes(probes[i]);
    let shorter = probes.drop_last();
    if i == probes.len() - 1 {
        assert(probes.take(i) =~= shorter);
        assert(probes_bytes(probes).subrange(at, at + own.len()) =~= own);
    } else {
        lemma_probe_at(shorter, i);
        assert(shorter.take(i) =~= probes.take(i));
        assert(probes_bytes(probes).subrange(at, at + own.len()) =~= probes_bytes(
            shorter,
        ).subrange(at, at + own.len()));
    }
}

/// The encoding of bridge `i` stands behind those of the bridges before it.
proof fn lemma_uart_at(uarts: Seq<UartFields>, i: int)
    requires
        0 <= i < uarts.len(),
    ensures
        ({
            let at = uarts_bytes(uarts.take(i)).len() as int;
            let own = uart_bytes(uarts[i]);
            &&& at + own.len() <= uarts_bytes(uarts).len()
            &&& uarts_bytes(uarts).subrange(at, at + own.len()) == own
        }),
    decreases uarts.len(),
{
    let at = uarts_bytes(uarts.take(i)).len() as int;
    let own = uart_bytes(uarts[i]);
    let shorter = uarts.drop_last();
    if i == uarts.len() - 1 {
        assert(uarts.take(i) =~= shorter);
        assert(uarts_bytes(uarts).subrange(at, at + own.len()) =~= own);
    } else {
        lemma_uart_at(shorter, i);
        assert(shorter.take(i) =~= uarts.take(i));
        assert(uarts_bytes(uarts).subrange(at, at + own.len()) =~= uarts_bytes(shorter).subrange(
            at,
            at + own.len(),
        ));
    }
}

/// Where the encoding of probe `i` starts in the encoding of a topology.
pub open spec fn probe_start(topology: TopologySpec, i: int) -> int {
    1int + probes_bytes(topology.probes.take(i).map_values(|p: ProbeConfig| probe_fields(p))).len()
}

/// Where the encoding of bridge `i` starts in the encoding of a topology.
pub open spec fn uart_start(topology: TopologySpec, i: int) -> int {
    probe_start(topology, topology.probes.len() as int) + 1 + uarts_bytes(
        topology.uarts.take(i).map_values(|u: UartConfig| uart_fields(u)),
    ).len()
}

/// A topology goes out as the number of its probes and the probes, then the number of its
/// bridges and the bridges. A probe is SWCLK, SWDIO and a byte that tells whether nRESET
/// follows; a bridge is TX, RX and the rate.
pub proof fn topologies_go_out_field_by_field(topology: TopologySpec, i: int)
    requires
        topology.probes.len() <= 12,
        topology.uarts.len() <= 2,
    ensures
        ({
            let bytes = topology_encoding(topology);
            let base = probe_start(topology, topology.probes.len() as int);
            &&& bytes[0] == topology.probes.len()
            &&& bytes[base] == topology.uarts.len()
            &&& probe_start(topology, 0) == 1
            &&& uart_start(topology, 0) == base + 1
            &&& bytes.len() == uart_start(topology, topology.uarts.len() as int)
            &&& 0 <= i < topology.probes.len() ==> {
                let at = probe_start(topology, i);
                let probe = topology.probes[i];
                &&& bytes[at] == probe.swclk
                &&& bytes[at + 1] == probe.swdio
                &&& probe.reset is None ==> bytes[at + 2] == 0 && probe_start(topology, i + 1) == at
                    + 3
                &&& probe.reset matches Some(reset) ==> bytes[at + 2] == 1 && bytes[at + 3] == reset
                    && probe_start(topology, i + 1) == at + 4
            }
            &&& 0 <= i < topology.uarts.len() ==> {
                let at = uart_start(topology, i);
                let uart = topology.uarts[i];
                &&& bytes[at] == uart.tx
                &&& bytes[at + 1] == uart.rx
                &&& sevens_value(bytes.subrange(at + 2, uart_start(topology, i + 1))) == uart.baud
            }
        }),
{
    let bytes = topology_encoding(topology);
    let probes = topology.probes.map_values(|p: ProbeConfig| probe_fields(p));
    let uarts = topology.uarts.map_values(|u: UartConfig| uart_fields(u));
    let base = probe_start(topology, topology.probes.len() as int);
    assert(topology.probes.take(topology.probes.len() as int) =~= topology.probes);
    assert(topology.uarts.take(topology.uarts.len() as int) =~= topology.uarts);
    assert(topology.probes.take(0).map_values(|p: ProbeConfig| probe_fields(p)) =~= Seq::empty());
    assert(topology.uarts.take(0).map_values(|u: UartConfig| uart_fields(u)) =~= Seq::empty());
    assert(varint(probes.len()) =~= seq![probes.len() as u8]);
    assert(varint(uarts.len()) =~= seq![uarts.len() as u8]);
    if 0 <= i < probes.len() {
        let at = probe_start(topology, i);
        let own = probe_bytes(probes[i]);
        lemma_probe_at(probes, i);
        assert(topology.probes.take(i).map_values(|p: ProbeConfig| probe_fields(p))
            =~= probes.take(i));
        let next = topology.probes.take(i + 1).map_values(|p: ProbeConfig| probe_fields(p));
        assert(next.drop_last() =~= probes.take(i));
        assert(next.last() == probes[i]);
        assert forall|k: int| 0 <= k < own.len() implies bytes[at + k] == own[k] by {
            assert(bytes[at + k] == probes_bytes(probes)[at - 1 + k]);
            assert(probes_bytes(probes).subrange(at - 1, at - 1 + own.len())[k] == own[k]);
        }
        assert(bytes[at + 0] == own[0]);
        assert(bytes[at + 1] == own[1]);
        assert(bytes[at + 2] == own[2]);
        if topology.probes[i].reset is Some {
            assert(own.len() == 4);
            assert(bytes[at + 3] == own[3]);
        }
    }
    if 0 <= i < uarts.len() {
        let at = uart_start(topology, i);
        let own = uart_bytes(uarts[i]);
        lemma_uart_at(uarts, i);
        assert(topology.uarts.take(i).map_values(|u: UartConfig| uart_fields(u)) =~= uarts.take(i));
        let next = topology.uarts.take(i + 1).map_values(|u: UartConfig| uart_fields(u));
        assert(next.drop_last() =~= uarts.take(i));
        assert(next.last() == uarts[i]);
        assert forall|k: int| 0 <= k < own.len() implies bytes[at + k] == own[k] by {
            assert(bytes[at + k] == uarts_bytes(uarts)[at - base - 1 + k]);
            assert(uarts_bytes(uarts).subrange(at - base - 1, at - base - 1 + own.len())[k]
                == own[k]);
        }
        assert(bytes[at + 0] == own[0]);
        assert(bytes[at + 1] == own[1]);
        let rate = bytes.subrange(at + 2, uart_start(topology, i + 1));
        assert(uart_start(topology, i + 1) == at + own.len());
        assert(at + own.len() <= bytes.len());
        assert forall|k: int| 0 <= k < rate.len() implies rate[k] == varint(
            uarts[i].2 as nat,
        )[k] by {
            assert(bytes[at + (k + 2)] == own[k + 2]);
        }
        assert(rate =~= varint(uarts[i].2 as nat));
        varints_spell_the_number(uarts[i].2 as nat);
    }
}

} // verus!
