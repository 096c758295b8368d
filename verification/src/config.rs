//! Configuration schema and validation of the probe firmware.
//!
//! The configuration has two layers, both stored in flash on the probe:
//!
//! * [`BoardProfile`]: what the *hardware* allows, that is which GPIOs exist and
//!   which are reserved for other duties.
//! * [`Topology`]: what the *user* wants, that is N SWD probes and M UART
//!   bridges with their pin assignments. It is validated against the profile
//!   and the limits of the chip.
//!
//! Firmware and host tools share this module, so every frontend rejects the
//! configurations that the firmware rejects.

use vstd::prelude::*;

use crate::bits;
use crate::fixed_vec;
use crate::fixed_vec::{no_probes, no_uarts, probe_slice, push_probe, push_uart, uart_slice};

verus! {

/// Hardware maximum number of SWD probe instances (RP2350: 3 PIO blocks of 4 state machines).
pub const MAX_PROBES: usize = 12;

/// Hardware maximum number of UART bridges (hardware UART peripherals).
pub const MAX_UARTS: usize = 2;

/// Pin assignment for one SWD probe instance.
#[derive(Debug, Clone, Copy, PartialEq, Eq, Structural)]
pub struct ProbeConfig {
    /// SWCLK GPIO number.
    pub swclk: u8,
    /// SWDIO GPIO number.
    pub swdio: u8,
    /// Optional nRESET GPIO number (open-drain emulated).
    pub reset: Option<u8>,
}

/// Pin assignment for one CDC-UART bridge.
#[derive(Debug, Clone, Copy, PartialEq, Eq, Structural)]
pub struct UartConfig {
    /// TX GPIO number (probe to target).
    pub tx: u8,
    /// RX GPIO number (target to probe).
    pub rx: u8,
    /// Initial baud rate.
    pub baud: u32,
}

/// The user-selected probe topology. This is the primary flash config block.
#[derive(Debug, PartialEq, Eq)]
pub struct Topology {
    /// SWD probe instances, in USB interface order.
    pub probes: heapless::Vec<ProbeConfig, MAX_PROBES>,
    /// UART bridges, in CDC interface order.
    pub uarts: heapless::Vec<UartConfig, MAX_UARTS>,
}

/// Which GPIOs a given board makes available. Secondary flash config block.
#[derive(Debug, Clone, Copy, PartialEq, Eq, Structural)]
pub struct BoardProfile {
    /// Bitmask of GPIOs that exist and are wired out (bit N = GPIO N).
    pub available: u64,
    /// Bitmask of GPIOs reserved for non-probe duties (LEDs, display, ...).
    /// Reserved pins are never assignable even if `available`.
    pub reserved: u64,
}

/// Per-chip hardware limits, selected by the firmware build (and reported to
/// host tools over the config protocol so they can pre-validate).
#[derive(Debug, Clone, Copy, PartialEq, Eq, Structural)]
pub struct ChipLimits {
    /// Number of GPIOs on the package.
    pub gpio_count: u8,
    /// Number of PIO blocks.
    pub pio_blocks: u8,
    /// State machines per PIO block.
    pub sms_per_block: u8,
    /// Usable USB endpoint numbers per direction (EP0 excluded).
    pub ep_numbers_per_dir: u8,
    /// Width of the pin window a single PIO block can address (RP2350B has
    /// more GPIOs than a PIO block can see at once; the block's GPIOBASE
    /// selects a window).
    pub pio_pin_window: u8,
}

/// Why a topology or a board profile was rejected.
#[derive(Debug, Clone, Copy, PartialEq, Eq, Structural)]
pub enum ValidationError {
    /// More probes than PIO state machines allow (accounting for autobaud).
    TooManyProbes,
    /// More UARTs than hardware UART peripherals.
    TooManyUarts,
    /// USB endpoint budget exceeded (IN: probes + 2 x uarts, OUT: probes + uarts).
    EndpointBudget,
    /// A pin is out of range, unavailable, or reserved on this board.
    PinUnavailable(u8),
    /// The same pin is assigned twice.
    PinConflict(u8),
    /// Probes cannot be binned into PIO blocks such that each block's pins
    /// fit one GPIOBASE window (RP2350B). No check reports it yet.
    PioWindow,
    /// The bridge with this TX pin does not use the TX and RX pins of one hardware UART.
    UartPinMux(u8),
    /// Two bridges resolve to this hardware UART.
    UartInstanceConflict(u8),
    /// The profile marks pins available that do not exist on the chip.
    ProfilePinRange,
    /// The profile leaves no pin assignable.
    ProfileEmpty,
}

/// RP2040 limits.
#[verifier::allow_in_spec]
pub fn rp2040() -> ChipLimits
    returns
        (ChipLimits {
            gpio_count: 30,
            pio_blocks: 2,
            sms_per_block: 4,
            ep_numbers_per_dir: 15,
            pio_pin_window: 32,
        }),
{
    ChipLimits {
        gpio_count: 30,
        pio_blocks: 2,
        sms_per_block: 4,
        ep_numbers_per_dir: 15,
        pio_pin_window: 32,
    }
}

/// RP2350A (QFN-60, e.g. Pico 2) limits.
#[verifier::allow_in_spec]
pub fn rp2350a() -> ChipLimits
    returns
        (ChipLimits {
            gpio_count: 30,
            pio_blocks: 3,
            sms_per_block: 4,
            ep_numbers_per_dir: 15,
            pio_pin_window: 32,
        }),
{
    ChipLimits {
        gpio_count: 30,
        pio_blocks: 3,
        sms_per_block: 4,
        ep_numbers_per_dir: 15,
        pio_pin_window: 32,
    }
}

/// RP2350B (QFN-80) limits. PIO blocks see a 32-pin window of the 48 GPIOs.
#[verifier::allow_in_spec]
pub fn rp2350b() -> ChipLimits
    returns
        (ChipLimits {
            gpio_count: 48,
            pio_blocks: 3,
            sms_per_block: 4,
            ep_numbers_per_dir: 15,
            pio_pin_window: 32,
        }),
{
    ChipLimits {
        gpio_count: 48,
        pio_blocks: 3,
        sms_per_block: 4,
        ep_numbers_per_dir: 15,
        pio_pin_window: 32,
    }
}

impl BoardProfile {
    /// Profile for a bare Raspberry Pi Pico / Pico 2: GP0-GP22 and GP26-GP28 are
    /// wired to the headers; GP23-GP25 and GP29 are used by the board itself.
    #[verifier::allow_in_spec]
    pub fn pico() -> BoardProfile
        returns
            (BoardProfile { available: 0x1FFF_FFFF, reserved: 0x2380_0000 }),
    {
        BoardProfile { available: 0x1FFF_FFFF, reserved: 0x2380_0000 }
    }

    /// `pin` is wired out and not reserved.
    pub open spec fn assignable(&self, pin: u8) -> bool {
        bits::has_pin(self.available, pin) && !bits::has_pin(self.reserved, pin)
    }

    /// What [`BoardProfile::validate`] answers: every available pin exists on the
    /// chip, and at least one pin is assignable.
    pub open spec fn verdict(&self, chip: ChipLimits) -> Result<(), ValidationError> {
        if exists|pin: u8| bits::has_pin(self.available, pin) && pin >= chip.gpio_count {
            Err(ValidationError::ProfilePinRange)
        } else if forall|pin: u8| !self.assignable(pin) {
            Err(ValidationError::ProfileEmpty)
        } else {
            Ok(())
        }
    }

    /// True if `pin` may be assigned to a probe function.
    pub fn is_assignable(&self, pin: u8) -> (r: bool)
        ensures
            r == self.assignable(pin),
    {
        proof {
            bits::lemma_minus_pins(self.available, self.reserved, pin);
        }
        pin < 64 && (self.available & !self.reserved) & (1u64 << pin) != 0
    }

    /// Validate this profile against the chip it is meant for.
    pub fn validate(&self, chip: &ChipLimits) -> (r: Result<(), ValidationError>)
        ensures
            r == self.verdict(*chip),
    {
        let mut any: bool = false;
        let mut pin: u8 = 0;
        while pin < 64
            invariant
                pin <= 64,
                forall|q: u8| q < pin && bits::has_pin(self.available, q) ==> q < chip.gpio_count,
                any == exists|q: u8| q < pin && self.assignable(q),
            decreases 64 - pin,
        {
            let ghost before = any;
            if pin >= chip.gpio_count && self.available & (1u64 << pin) != 0 {
                assert(bits::has_pin(self.available, pin));
                return Err(ValidationError::ProfilePinRange);
            }
            let now: bool = self.is_assignable(pin);
            any = any || now;
            proof {
                if before {
                    let q = choose|q: u8| q < pin && self.assignable(q);
                    assert(q < pin + 1 && self.assignable(q));
                }
                if now {
                    assert(pin < pin + 1 && self.assignable(pin));
                }
            }
            pin = pin + 1;
        }
        assert(forall|q: u8| bits::has_pin(self.available, q) ==> q < 64);
        if any {
            Ok(())
        } else {
            assert forall|q: u8| !self.assignable(q) by {
                if self.assignable(q) {
                    assert(q < pin && self.assignable(q));
                }
            }
            Err(ValidationError::ProfileEmpty)
        }
    }
}

/// The hardware UART whose TX `pin` can drive: UART0 on 0, 12, 16 and 28, UART1
/// on 4, 8, 20 and 24.
pub open spec fn tx_instance(pin: u8) -> Option<u8> {
    if pin == 0 || pin == 12 || pin == 16 || pin == 28 {
        Some(0)
    } else if pin == 4 || pin == 8 || pin == 20 || pin == 24 {
        Some(1)
    } else {
        None
    }
}

/// The hardware UART whose RX `pin` can carry: the pin after one of its TX pins.
pub open spec fn rx_instance(pin: u8) -> Option<u8> {
    if pin == 0 {
        None
    } else {
        tx_instance((pin - 1) as u8)
    }
}

/// Hardware UART instance `pin` can drive as TX, if any.
pub fn uart_tx_instance(pin: u8) -> (r: Option<u8>)
    ensures
        r == tx_instance(pin),
{
    match pin {
        0 | 12 | 16 | 28 => Some(0),
        4 | 8 | 20 | 24 => Some(1),
        _ => None,
    }
}

/// Hardware UART instance `pin` can receive as RX, if any.
pub fn uart_rx_instance(pin: u8) -> (r: Option<u8>)
    ensures
        r == rx_instance(pin),
{
    match pin {
        1 | 13 | 17 | 29 => Some(0),
        5 | 9 | 21 | 25 => Some(1),
        _ => None,
    }
}

/// The contents of a [`Topology`].
#[verifier::ext_equal]
pub struct TopologySpec {
    /// SWD probe instances, in USB interface order.
    pub probes: Seq<ProbeConfig>,
    /// UART bridges, in CDC interface order.
    pub uarts: Seq<UartConfig>,
}

/// The pins of one probe, in the order in which they are claimed.
pub open spec fn probe_pins(probe: ProbeConfig) -> Seq<u8> {
    match probe.reset {
        Some(reset) => seq![probe.swclk, probe.swdio, reset],
        None => seq![probe.swclk, probe.swdio],
    }
}

/// The pins of all probes, in order.
pub open spec fn probes_pins(probes: Seq<ProbeConfig>) -> Seq<u8>
    decreases probes.len(),
{
    if probes.len() == 0 {
        Seq::empty()
    } else {
        probes_pins(probes.drop_last()) + probe_pins(probes.last())
    }
}

/// The pins of all UART bridges, in order.
pub open spec fn uarts_pins(uarts: Seq<UartConfig>) -> Seq<u8>
    decreases uarts.len(),
{
    if uarts.len() == 0 {
        Seq::empty()
    } else {
        uarts_pins(uarts.drop_last()) + seq![uarts.last().tx, uarts.last().rx]
    }
}

/// Whether `pin` may be claimed after the pins `earlier`.
pub open spec fn pin_verdict(
    earlier: Seq<u8>,
    pin: u8,
    chip: ChipLimits,
    profile: BoardProfile,
) -> Result<(), ValidationError> {
    if pin >= chip.gpio_count || !profile.assignable(pin) {
        Err(ValidationError::PinUnavailable(pin))
    } else if earlier.contains(pin) {
        Err(ValidationError::PinConflict(pin))
    } else {
        Ok(())
    }
}

/// Whether all of `pins` may be claimed in order; the first that may not decides.
pub open spec fn pins_verdict(
    pins: Seq<u8>,
    chip: ChipLimits,
    profile: BoardProfile,
) -> Result<(), ValidationError>
    decreases pins.len(),
{
    if pins.len() == 0 {
        Ok(())
    } else {
        match pins_verdict(pins.drop_last(), chip, profile) {
            Err(e) => Err(e),
            Ok(()) => pin_verdict(pins.drop_last(), pins.last(), chip, profile),
        }
    }
}

/// Whether bridge `uart` selects one hardware UART that no bridge of `earlier` uses.
pub open spec fn uart_verdict(earlier: Seq<UartConfig>, uart: UartConfig) -> Result<
    (),
    ValidationError,
> {
    match tx_instance(uart.tx) {
        Some(instance) => if rx_instance(uart.rx) != Some(instance) {
            Err(ValidationError::UartPinMux(uart.tx))
        } else if exists|i: int|
            0 <= i < earlier.len() && tx_instance(#[trigger] earlier[i].tx) == Some(instance) {
            Err(ValidationError::UartInstanceConflict(instance))
        } else {
            Ok(())
        },
        None => Err(ValidationError::UartPinMux(uart.tx)),
    }
}

/// Whether all bridges select hardware UARTs of their own; the first that does not decides.
pub open spec fn uarts_verdict(uarts: Seq<UartConfig>) -> Result<(), ValidationError>
    decreases uarts.len(),
{
    if uarts.len() == 0 {
        Ok(())
    } else {
        match uarts_verdict(uarts.drop_last()) {
            Err(e) => Err(e),
            Ok(()) => uart_verdict(uarts.drop_last(), uarts.last()),
        }
    }
}

impl TopologySpec {
    /// All pins of the topology, in the order in which they are claimed.
    pub open spec fn pins(self) -> Seq<u8> {
        probes_pins(self.probes) + uarts_pins(self.uarts)
    }

    /// The PIO state machines that the topology takes: one for each probe, and
    /// one for autobaud when there is a UART.
    pub open spec fn state_machines(self) -> int {
        self.probes.len() + if self.uarts.len() > 0 {
            1int
        } else {
            0int
        }
    }

    /// USB IN endpoints: one for each probe, a bulk and a notification one for each UART.
    pub open spec fn in_endpoints(self) -> int {
        (self.probes.len() + 2 * self.uarts.len()) as int
    }

    /// USB OUT endpoints: one for each probe and each UART.
    pub open spec fn out_endpoints(self) -> int {
        (self.probes.len() + self.uarts.len()) as int
    }

    /// What [`Topology::validate`] answers. The budgets are checked first, then
    /// every pin, then the hardware UARTs.
    pub open spec fn verdict(self, chip: ChipLimits, profile: BoardProfile) -> Result<
        (),
        ValidationError,
    > {
        if self.state_machines() > chip.pio_blocks * chip.sms_per_block {
            Err(ValidationError::TooManyProbes)
        } else if self.uarts.len() > MAX_UARTS {
            Err(ValidationError::TooManyUarts)
        } else if self.in_endpoints() > chip.ep_numbers_per_dir || self.out_endpoints()
            > chip.ep_numbers_per_dir {
            Err(ValidationError::EndpointBudget)
        } else {
            match pins_verdict(self.pins(), chip, profile) {
                Err(e) => Err(e),
                Ok(()) => uarts_verdict(self.uarts),
            }
        }
    }
}

impl View for Topology {
    type V = TopologySpec;

    open spec fn view(&self) -> TopologySpec {
        TopologySpec { probes: fixed_vec::probes_held(self.probes), uarts: fixed_vec::uarts_held(self.uarts) }
    }
}

impl Default for Topology {
    /// A topology without probes and bridges.
    fn default() -> (r: Topology)
        ensures
            r@.probes == Seq::<ProbeConfig>::empty(),
            r@.uarts == Seq::<UartConfig>::empty(),
    {
        Topology { probes: no_probes(), uarts: no_uarts() }
    }
}

impl Clone for Topology {
    fn clone(&self) -> (r: Topology)
        ensures
            r@ == self@,
    {
        let probes = probe_slice(&self.probes);
        let uarts = uart_slice(&self.uarts);
        let mut copy = Topology::default();
        let mut i: usize = 0;
        while i < probes.len()
            invariant
                i <= probes.len() <= MAX_PROBES,
                copy@.probes == probes@.take(i as int),
                copy@.uarts == Seq::<UartConfig>::empty(),
            decreases probes.len() - i,
        {
            let _ = push_probe(&mut copy.probes, probes[i]);
            assert(probes@.take(i + 1) =~= probes@.take(i as int).push(probes@[i as int]));
            i = i + 1;
        }
        let mut j: usize = 0;
        while j < uarts.len()
            invariant
                j <= uarts.len() <= MAX_UARTS,
                copy@.probes == probes@,
                copy@.uarts == uarts@.take(j as int),
            decreases uarts.len() - j,
        {
            let _ = push_uart(&mut copy.uarts, uarts[j]);
            assert(uarts@.take(j + 1) =~= uarts@.take(j as int).push(uarts@[j as int]));
            j = j + 1;
        }
        copy
    }
}

/// A pin that may not be claimed decides for every longer list too.
proof fn lemma_pins_verdict_prefix(
    pins: Seq<u8>,
    rest: Seq<u8>,
    chip: ChipLimits,
    profile: BoardProfile,
)
    requires
        pins_verdict(pins, chip, profile) is Err,
    ensures
        pins_verdict(pins + rest, chip, profile) == pins_verdict(pins, chip, profile),
    decreases rest.len(),
{
    if rest.len() == 0 {
        assert(pins + rest =~= pins);
    } else {
        lemma_pins_verdict_prefix(pins, rest.drop_last(), chip, profile);
        assert((pins + rest).drop_last() =~= pins + rest.drop_last());
    }
}

/// The same for the bridges.
proof fn lemma_uarts_verdict_prefix(uarts: Seq<UartConfig>, rest: Seq<UartConfig>)
    requires
        uarts_verdict(uarts) is Err,
    ensures
        uarts_verdict(uarts + rest) == uarts_verdict(uarts),
    decreases rest.len(),
{
    if rest.len() == 0 {
        assert(uarts + rest =~= uarts);
    } else {
        lemma_uarts_verdict_prefix(uarts, rest.drop_last());
        assert((uarts + rest).drop_last() =~= uarts + rest.drop_last());
    }
}

/// The pins of a list of probes start with the pins of its first `n` probes.
proof fn lemma_probes_pins_prefix(probes: Seq<ProbeConfig>, n: int) -> (rest: Seq<u8>)
    requires
        0 <= n <= probes.len(),
    ensures
        probes_pins(probes) == probes_pins(probes.take(n)) + rest,
    decreases probes.len() - n,
{
    if n == probes.len() {
        assert(probes.take(n) =~= probes);
        assert(probes_pins(probes) =~= probes_pins(probes) + Seq::<u8>::empty());
        Seq::empty()
    } else {
        let rest = lemma_probes_pins_prefix(probes, n + 1);
        assert(probes.take(n + 1).drop_last() =~= probes.take(n));
        let mine = probe_pins(probes[n]) + rest;
        assert(probes_pins(probes) =~= probes_pins(probes.take(n)) + mine);
        mine
    }
}

/// The pins of a list of bridges start with the pins of its first `n` bridges.
proof fn lemma_uarts_pins_prefix(uarts: Seq<UartConfig>, n: int) -> (rest: Seq<u8>)
    requires
        0 <= n <= uarts.len(),
    ensures
        uarts_pins(uarts) == uarts_pins(uarts.take(n)) + rest,
    decreases uarts.len() - n,
{
    if n == uarts.len() {
        assert(uarts.take(n) =~= uarts);
        assert(uarts_pins(uarts) =~= uarts_pins(uarts) + Seq::<u8>::empty());
        Seq::empty()
    } else {
        let rest = lemma_uarts_pins_prefix(uarts, n + 1);
        assert(uarts.take(n + 1).drop_last() =~= uarts.take(n));
        let mine = seq![uarts[n].tx, uarts[n].rx] + rest;
        assert(uarts_pins(uarts) =~= uarts_pins(uarts.take(n)) + mine);
        mine
    }
}

/// The pins claimed so far, as a bitmask.
struct PinClaims {
    used: u64,
}

impl PinClaims {
    /// The mask holds exactly the first `n` pins of `all`, and all of them were
    /// claimed rightfully.
    spec fn holds(&self, all: Seq<u8>, n: int, chip: ChipLimits, profile: BoardProfile) -> bool {
        &&& 0 <= n <= all.len()
        &&& forall|pin: u8| bits::has_pin(self.used, pin) == all.take(n).contains(pin)
        &&& pins_verdict(all.take(n), chip, profile) is Ok
    }

    /// Claim `pin`, which stands at position `n` of the pins `all`.
    fn claim(
        &mut self,
        pin: u8,
        chip: &ChipLimits,
        profile: &BoardProfile,
        Ghost(all): Ghost<Seq<u8>>,
        Ghost(n): Ghost<int>,
    ) -> (r: Result<(), ValidationError>)
        requires
            old(self).holds(all, n, *chip, *profile),
            n < all.len(),
            all[n] == pin,
        ensures
            r is Ok ==> final(self).holds(all, n + 1, *chip, *profile),
            r is Err ==> r == pins_verdict(all, *chip, *profile),
    {
        assert(all.take(n + 1).drop_last() =~= all.take(n));
        proof {
            if pins_verdict(all.take(n + 1), *chip, *profile) is Err {
                lemma_pins_verdict_prefix(all.take(n + 1), all.skip(n + 1), *chip, *profile);
                assert(all.take(n + 1) + all.skip(n + 1) =~= all);
            }
        }
        if pin >= chip.gpio_count || !profile.is_assignable(pin) {
            return Err(ValidationError::PinUnavailable(pin));
        }
        let bit: u64 = 1u64 << pin;
        if self.used & bit != 0 {
            assert(bits::has_pin(self.used, pin));
            return Err(ValidationError::PinConflict(pin));
        }
        assert(!bits::has_pin(self.used, pin));
        let ghost before = self.used;
        self.used = self.used | bit;
        assert forall|q: u8| bits::has_pin(self.used, q) == all.take(n + 1).contains(q) by {
            bits::lemma_add_pin(before, pin, q);
            if all.take(n).contains(q) {
                let i = choose|i: int| 0 <= i < n && all.take(n)[i] == q;
                assert(all.take(n + 1)[i] == q);
            }
            if all.take(n + 1).contains(q) && q != pin {
                let longer = all.take(n + 1);
                let i = choose|i: int| 0 <= i < longer.len() && longer[i] == q;
                assert(all.take(n)[i] == q);
            }
            assert(all.take(n + 1)[n] == pin);
        }
        Ok(())
    }
}

/// Pin availability and conflicts, probes first.
fn check_pins(
    probes: &[ProbeConfig],
    uarts: &[UartConfig],
    chip: &ChipLimits,
    profile: &BoardProfile,
) -> (r: Result<(), ValidationError>)
    ensures
        r == pins_verdict(probes_pins(probes@) + uarts_pins(uarts@), *chip, *profile),
{
    let ghost all = probes_pins(probes@) + uarts_pins(uarts@);
    let mut claims = PinClaims { used: 0 };
    assert(claims.holds(all, 0, *chip, *profile)) by {
        assert forall|pin: u8| !bits::has_pin(0, pin) by {
            bits::lemma_no_pin(pin);
        }
    }
    assert(probes@.take(0) =~= Seq::empty());
    let mut i: usize = 0;
    while i < probes.len()
        invariant
            i <= probes.len(),
            all == probes_pins(probes@) + uarts_pins(uarts@),
            claims.holds(all, probes_pins(probes@.take(i as int)).len() as int, *chip, *profile),
        decreases probes.len() - i,
    {
        let p: ProbeConfig = probes[i];
        let ghost n = probes_pins(probes@.take(i as int)).len() as int;
        proof {
            let rest = lemma_probes_pins_prefix(probes@, i + 1);
            assert(probes@.take(i + 1).drop_last() =~= probes@.take(i as int));
            let mine = probe_pins(p);
            assert(forall|k: int| 0 <= k < mine.len() ==> all[n + k] == #[trigger] mine[k]);
            assert(mine[0] == p.swclk && mine[1] == p.swdio);
            assert(p.reset is Some ==> mine[2] == p.reset->0);
        }
        claims.claim(p.swclk, chip, profile, Ghost(all), Ghost(n))?;
        claims.claim(p.swdio, chip, profile, Ghost(all), Ghost(n + 1))?;
        if let Some(reset) = p.reset {
            claims.claim(reset, chip, profile, Ghost(all), Ghost(n + 2))?;
        }
        i = i + 1;
    }
    assert(probes@.take(i as int) =~= probes@);
    assert(uarts@.take(0) =~= Seq::empty());
    let mut j: usize = 0;
    while j < uarts.len()
        invariant
            j <= uarts.len(),
            all == probes_pins(probes@) + uarts_pins(uarts@),
            claims.holds(
                all,
                (probes_pins(probes@).len() + uarts_pins(uarts@.take(j as int)).len()) as int,
                *chip,
                *profile,
            ),
        decreases uarts.len() - j,
    {
        let u: UartConfig = uarts[j];
        let ghost n = probes_pins(probes@).len() + uarts_pins(uarts@.take(j as int)).len() as int;
        proof {
            let rest = lemma_uarts_pins_prefix(uarts@, j + 1);
            assert(uarts@.take(j + 1).drop_last() =~= uarts@.take(j as int));
            let mine = seq![u.tx, u.rx];
            assert(forall|k: int| 0 <= k < mine.len() ==> all[n + k] == #[trigger] mine[k]);
            assert(mine[0] == u.tx && mine[1] == u.rx);
        }
        claims.claim(u.tx, chip, profile, Ghost(all), Ghost(n))?;
        claims.claim(u.rx, chip, profile, Ghost(all), Ghost(n + 1))?;
        j = j + 1;
    }
    assert(uarts@.take(j as int) =~= uarts@);
    assert(all.take(all.len() as int) =~= all);
    Ok(())
}

/// The hardware UARTs that the bridges select.
fn check_uarts(uarts: &[UartConfig]) -> (r: Result<(), ValidationError>)
    ensures
        r == uarts_verdict(uarts@),
{
    let mut j: usize = 0;
    assert(uarts@.take(0) =~= Seq::empty());
    while j < uarts.len()
        invariant
            j <= uarts.len(),
            uarts_verdict(uarts@.take(j as int)) is Ok,
        decreases uarts.len() - j,
    {
        let u: UartConfig = uarts[j];
        let ghost earlier = uarts@.take(j as int);
        proof {
            assert(uarts@.take(j + 1).drop_last() =~= earlier);
            if uarts_verdict(uarts@.take(j + 1)) is Err {
                lemma_uarts_verdict_prefix(uarts@.take(j + 1), uarts@.skip(j + 1));
                assert(uarts@.take(j + 1) + uarts@.skip(j + 1) =~= uarts@);
            }
        }
        let instance: u8 = match uart_tx_instance(u.tx) {
            Some(instance) => instance,
            None => {
                return Err(ValidationError::UartPinMux(u.tx));
            },
        };
        match uart_rx_instance(u.rx) {
            Some(same) if same == instance => {},
            _ => {
                return Err(ValidationError::UartPinMux(u.tx));
            },
        }
        let mut k: usize = 0;
        while k < j
            invariant
                k <= j < uarts.len(),
                earlier == uarts@.take(j as int),
                tx_instance(u.tx) == Some(instance),
                rx_instance(u.rx) == Some(instance),
                uarts_verdict(uarts@.take(j as int)) is Ok,
                uarts_verdict(uarts@.take(j + 1)) == uart_verdict(earlier, u),
                uarts_verdict(uarts@.take(j + 1)) is Err ==> uarts_verdict(uarts@)
                    == uarts_verdict(uarts@.take(j + 1)),
                forall|i: int|
                    0 <= i < k ==> tx_instance(#[trigger] earlier[i].tx) != Some(instance),
            decreases j - k,
        {
            assert(earlier[k as int] == uarts@[k as int]);
            match uart_tx_instance(uarts[k].tx) {
                Some(other) if other == instance => {
                    assert(tx_instance(earlier[k as int].tx) == Some(instance));
                    return Err(ValidationError::UartInstanceConflict(instance));
                },
                _ => {},
            }
            k = k + 1;
        }
        j = j + 1;
    }
    assert(uarts@.take(j as int) =~= uarts@);
    Ok(())
}

impl Topology {
    /// Validate this topology against chip limits and a board profile.
    pub fn validate(&self, chip: &ChipLimits, profile: &BoardProfile) -> (r: Result<
        (),
        ValidationError,
    >)
        ensures
            r == self@.verdict(*chip, *profile),
    {
        let probes = probe_slice(&self.probes);
        let uarts = uart_slice(&self.uarts);
        let n_probes: usize = probes.len();
        let n_uarts: usize = uarts.len();

        // PIO SM budget. Autobaud claims one SM (in any block) when at least
        // one UART is configured.
        assert(chip.pio_blocks * chip.sms_per_block <= 255 * 255) by (nonlinear_arith)
            requires
                chip.pio_blocks <= 255,
                chip.sms_per_block <= 255,
        ;
        let total_sms: usize = (chip.pio_blocks as usize) * (chip.sms_per_block as usize);
        let autobaud_sms: usize = if n_uarts > 0 {
            1
        } else {
            0
        };
        if n_probes + autobaud_sms > total_sms {
            return Err(ValidationError::TooManyProbes);
        }
        if n_uarts > MAX_UARTS {
            return Err(ValidationError::TooManyUarts);
        }
        // USB endpoint budget, per direction (IN and OUT allocate independently).

        let ep_in: usize = n_probes + 2 * n_uarts;
        let ep_out: usize = n_probes + n_uarts;
        if ep_in > chip.ep_numbers_per_dir as usize || ep_out > chip.ep_numbers_per_dir as usize {
            return Err(ValidationError::EndpointBudget);
        }
        check_pins(probes, uarts, chip, profile)?;
        check_uarts(uarts)
    }
}

/// No pin of `pins` is out of range, unavailable or reserved, and none occurs twice.
pub open spec fn pins_acceptable(pins: Seq<u8>, chip: ChipLimits, profile: BoardProfile) -> bool {
    &&& forall|i: int|
        0 <= i < pins.len() ==> #[trigger] pins[i] < chip.gpio_count && profile.assignable(pins[i])
    &&& forall|i: int, j: int| 0 <= i < j < pins.len() ==> pins[i] != pins[j]
}

/// Every bridge has the TX and RX pins of one hardware UART, and no two the same UART.
pub open spec fn uarts_acceptable(uarts: Seq<UartConfig>) -> bool {
    &&& forall|i: int|
        0 <= i < uarts.len() ==> tx_instance((#[trigger] uarts[i]).tx) is Some && rx_instance(
            uarts[i].rx,
        ) == tx_instance(uarts[i].tx)
    &&& forall|i: int, j: int|
        0 <= i < j < uarts.len() ==> tx_instance((#[trigger] uarts[i]).tx) != tx_instance(
            (#[trigger] uarts[j]).tx,
        )
}

proof fn lemma_pins_acceptable(pins: Seq<u8>, chip: ChipLimits, profile: BoardProfile)
    ensures
        pins_verdict(pins, chip, profile) is Ok <==> pins_acceptable(pins, chip, profile),
    decreases pins.len(),
{
    if pins.len() > 0 {
        let shorter = pins.drop_last();
        lemma_pins_acceptable(shorter, chip, profile);
        assert(forall|i: int| 0 <= i < shorter.len() ==> shorter[i] == pins[i]);
        if pins_verdict(pins, chip, profile) is Ok {
            assert forall|i: int, j: int| 0 <= i < j < pins.len() implies pins[i] != pins[j] by {
                if j == pins.len() - 1 {
                    assert(shorter.contains(shorter[i]));
                } else {
                    assert(shorter[i] != shorter[j]);
                }
            }
            assert forall|i: int| 0 <= i < pins.len() implies #[trigger] pins[i] < chip.gpio_count
                && profile.assignable(pins[i]) by {
                if i < shorter.len() {
                    assert(shorter[i] < chip.gpio_count);
                }
            }
        }
        if pins_acceptable(pins, chip, profile) {
            assert forall|i: int, j: int| 0 <= i < j < shorter.len() implies shorter[i]
                != shorter[j] by {
                assert(pins[i] != pins[j]);
            }
            if shorter.contains(pins.last()) {
                let i = choose|i: int| 0 <= i < shorter.len() && shorter[i] == pins.last();
                assert(pins[i] != pins[pins.len() - 1]);
            }
        }
    }
}

proof fn lemma_uarts_acceptable(uarts: Seq<UartConfig>)
    ensures
        uarts_verdict(uarts) is Ok <==> uarts_acceptable(uarts),
    decreases uarts.len(),
{
    if uarts.len() > 0 {
        let shorter = uarts.drop_last();
        lemma_uarts_acceptable(shorter);
        assert(forall|i: int| 0 <= i < shorter.len() ==> #[trigger] shorter[i] == uarts[i]);
        if uarts_verdict(uarts) is Ok {
            assert forall|i: int, j: int| 0 <= i < j < uarts.len() implies tx_instance(
                (#[trigger] uarts[i]).tx,
            ) != tx_instance((#[trigger] uarts[j]).tx) by {
                assert(shorter[i] == uarts[i]);
                if j < shorter.len() {
                    assert(shorter[j] == uarts[j]);
                }
            }
            assert forall|i: int| 0 <= i < uarts.len() implies tx_instance(
                (#[trigger] uarts[i]).tx,
            ) is Some && rx_instance(uarts[i].rx) == tx_instance(uarts[i].tx) by {
                if i < shorter.len() {
                    assert(shorter[i] == uarts[i]);
                }
            }
        }
        if uarts_acceptable(uarts) {
            assert(uarts_acceptable(shorter));
            assert(uarts[uarts.len() - 1] == uarts.last());
        }
    }
}

/// A topology is accepted exactly when it keeps the state-machine and endpoint
/// budgets, uses only pins that exist and are assignable, uses no pin twice, and
/// gives every bridge a hardware UART of its own.
pub proof fn accepted_topologies(topology: TopologySpec, chip: ChipLimits, profile: BoardProfile)
    ensures
        topology.verdict(chip, profile) is Ok <==> {
            &&& topology.state_machines() <= chip.pio_blocks * chip.sms_per_block
            &&& topology.uarts.len() <= MAX_UARTS
            &&& topology.in_endpoints() <= chip.ep_numbers_per_dir
            &&& pins_acceptable(topology.pins(), chip, profile)
            &&& uarts_acceptable(topology.uarts)
        },
{
    lemma_pins_acceptable(topology.pins(), chip, profile);
    lemma_uarts_acceptable(topology.uarts);
}

/// A reserved pin is never assignable, even if it is available, so no accepted
/// topology uses one.
pub proof fn reserved_pins_stay_free(
    topology: TopologySpec,
    chip: ChipLimits,
    profile: BoardProfile,
    pin: u8,
)
    requires
        bits::has_pin(profile.reserved, pin),
    ensures
        !profile.assignable(pin),
        topology.verdict(chip, profile) is Ok ==> !topology.pins().contains(pin),
{
    lemma_pins_acceptable(topology.pins(), chip, profile);
}

/// `short` is what stands in `long` at the positions `at`, in order.
pub open spec fn picked<T>(short: Seq<T>, long: Seq<T>, at: Seq<int>) -> bool {
    &&& at.len() == short.len()
    &&& forall|i: int|
        0 <= i < at.len() ==> 0 <= #[trigger] at[i] < long.len() && short[i] == long[at[i]]
    &&& forall|i: int, j: int| 0 <= i < j < at.len() ==> at[i] < at[j]
}

/// A profile that offers every pin that `profile` offers, and reserves no more.
pub open spec fn permits(wider: BoardProfile, profile: BoardProfile) -> bool {
    &&& forall|pin: u8|
        bits::has_pin(profile.available, pin) ==> #[trigger] bits::has_pin(wider.available, pin)
    &&& forall|pin: u8|
        #[trigger] bits::has_pin(wider.reserved, pin) ==> bits::has_pin(profile.reserved, pin)
}

/// What was picked is not longer.
proof fn lemma_picked_len<T>(short: Seq<T>, long: Seq<T>, at: Seq<int>)
    requires
        picked(short, long, at),
    ensures
        short.len() <= long.len(),
    decreases long.len(),
{
    if at.len() > 0 {
        if at.last() == long.len() - 1 {
            assert(picked(short.drop_last(), long.drop_last(), at.drop_last()));
            lemma_picked_len(short.drop_last(), long.drop_last(), at.drop_last());
        } else {
            assert(at[at.len() - 1] == at.last());
            assert forall|i: int| 0 <= i < at.len() implies 0 <= #[trigger] at[i] < long.len() - 1
                && short[i] == long.drop_last()[at[i]] by {
                if i < at.len() - 1 {
                    assert(at[i] < at[at.len() - 1]);
                }
            }
            assert(picked(short, long.drop_last(), at));
            lemma_picked_len(short, long.drop_last(), at);
        }
    }
}

/// The pins of probes that were picked are picked from the pins.
proof fn lemma_picked_probes(short: Seq<ProbeConfig>, long: Seq<ProbeConfig>, at: Seq<int>) -> (
    pins: Seq<int>)
    requires
        picked(short, long, at),
    ensures
        picked(probes_pins(short), probes_pins(long), pins),
    decreases long.len(),
{
    if long.len() == 0 {
        if at.len() > 0 {
            assert(0 <= at[0] < long.len());
        }
        Seq::empty()
    } else if at.len() > 0 && at.last() == long.len() - 1 {
        assert(picked(short.drop_last(), long.drop_last(), at.drop_last()));
        let earlier = lemma_picked_probes(short.drop_last(), long.drop_last(), at.drop_last());
        let offset = probes_pins(long.drop_last()).len();
        assert(short.last() == long.last()) by {
            assert(at[at.len() - 1] == at.last());
        }
        let mine = Seq::new(probe_pins(long.last()).len(), |k: int| offset + k);
        let pins = earlier + mine;
        assert(picked(probes_pins(short), probes_pins(long), pins));
        pins
    } else {
        assert forall|i: int| 0 <= i < at.len() implies 0 <= #[trigger] at[i] < long.len() - 1
            && short[i] == long.drop_last()[at[i]] by {
            if i < at.len() - 1 {
                assert(at[i] < at[at.len() - 1]);
            }
        }
        assert(picked(short, long.drop_last(), at));
        let pins = lemma_picked_probes(short, long.drop_last(), at);
        assert(picked(probes_pins(short), probes_pins(long), pins));
        pins
    }
}

/// The pins of bridges that were picked are picked from the pins.
proof fn lemma_picked_uarts(short: Seq<UartConfig>, long: Seq<UartConfig>, at: Seq<int>) -> (
    pins: Seq<int>)
    requires
        picked(short, long, at),
    ensures
        picked(uarts_pins(short), uarts_pins(long), pins),
    decreases long.len(),
{
    if long.len() == 0 {
        if at.len() > 0 {
            assert(0 <= at[0] < long.len());
        }
        Seq::empty()
    } else if at.len() > 0 && at.last() == long.len() - 1 {
        assert(picked(short.drop_last(), long.drop_last(), at.drop_last()));
        let earlier = lemma_picked_uarts(short.drop_last(), long.drop_last(), at.drop_last());
        let offset = uarts_pins(long.drop_last()).len() as int;
        assert(short.last() == long.last()) by {
            assert(at[at.len() - 1] == at.last());
        }
        let pins = earlier + seq![offset, offset + 1];
        assert(picked(uarts_pins(short), uarts_pins(long), pins));
        pins
    } else {
        assert forall|i: int| 0 <= i < at.len() implies 0 <= #[trigger] at[i] < long.len() - 1
            && short[i] == long.drop_last()[at[i]] by {
            if i < at.len() - 1 {
                assert(at[i] < at[at.len() - 1]);
            }
        }
        assert(picked(short, long.drop_last(), at));
        let pins = lemma_picked_uarts(short, long.drop_last(), at);
        assert(picked(uarts_pins(short), uarts_pins(long), pins));
        pins
    }
}

/// A valid topology stays valid when probes or bridges are dropped, and when the board
/// profile becomes more permissive.
pub proof fn smaller_topologies_stay_valid(
    topology: TopologySpec,
    smaller: TopologySpec,
    probes_at: Seq<int>,
    uarts_at: Seq<int>,
    chip: ChipLimits,
    profile: BoardProfile,
    wider: BoardProfile,
)
    requires
        topology.verdict(chip, profile) is Ok,
        picked(smaller.probes, topology.probes, probes_at),
        picked(smaller.uarts, topology.uarts, uarts_at),
        permits(wider, profile),
    ensures
        smaller.verdict(chip, wider) is Ok,
{
    accepted_topologies(topology, chip, profile);
    accepted_topologies(smaller, chip, wider);
    lemma_picked_len(smaller.probes, topology.probes, probes_at);
    lemma_picked_len(smaller.uarts, topology.uarts, uarts_at);
    let a = lemma_picked_probes(smaller.probes, topology.probes, probes_at);
    let b = lemma_picked_uarts(smaller.uarts, topology.uarts, uarts_at);
    let offset = probes_pins(topology.probes).len();
    let at = a + b.map_values(|i: int| offset + i);
    let long = topology.pins();
    let short = smaller.pins();
    assert(picked(short, long, at));
    assert forall|i: int| 0 <= i < short.len() implies #[trigger] short[i] < chip.gpio_count
        && wider.assignable(short[i]) by {
        let pin = long[at[i]];
        assert(pin < chip.gpio_count && profile.assignable(pin));
        assert(bits::has_pin(wider.available, pin));
        assert(!bits::has_pin(wider.reserved, pin));
    }
    assert forall|i: int, j: int| 0 <= i < j < short.len() implies short[i] != short[j] by {
        assert(long[at[i]] != long[at[j]]);
    }
    assert forall|i: int| 0 <= i < smaller.uarts.len() implies tx_instance(
        (#[trigger] smaller.uarts[i]).tx,
    ) is Some && rx_instance(smaller.uarts[i].rx) == tx_instance(smaller.uarts[i].tx) by {
        assert(smaller.uarts[i] == topology.uarts[uarts_at[i]]);
    }
    assert forall|i: int, j: int| 0 <= i < j < smaller.uarts.len() implies tx_instance(
        (#[trigger] smaller.uarts[i]).tx,
    ) != tx_instance((#[trigger] smaller.uarts[j]).tx) by {
        assert(smaller.uarts[i] == topology.uarts[uarts_at[i]]);
        assert(smaller.uarts[j] == topology.uarts[uarts_at[j]]);
        assert(uarts_at[i] < uarts_at[j]);
    }
}

/// A field that names a pin, by the index of its probe or bridge.
enum PinField {
    Swclk(int),
    Swdio(int),
    Reset(int),
    Tx(int),
    Rx(int),
}

impl PinField {
    /// The pin that the field of a topology names, if there is such a field.
    spec fn pin(self, topology: TopologySpec) -> Option<u8> {
        match self {
            PinField::Swclk(i) => if 0 <= i < topology.probes.len() {
                Some(topology.probes[i].swclk)
            } else {
                None
            },
            PinField::Swdio(i) => if 0 <= i < topology.probes.len() {
                Some(topology.probes[i].swdio)
            } else {
                None
            },
            PinField::Reset(i) => if 0 <= i < topology.probes.len() {
                topology.probes[i].reset
            } else {
                None
            },
            PinField::Tx(i) => if 0 <= i < topology.uarts.len() {
                Some(topology.uarts[i].tx)
            } else {
                None
            },
            PinField::Rx(i) => if 0 <= i < topology.uarts.len() {
                Some(topology.uarts[i].rx)
            } else {
                None
            },
        }
    }

    /// Where the field stands among the pins of the topology.
    spec fn position(self, topology: TopologySpec) -> int {
        let first = |i: int| probes_pins(topology.probes.take(i)).len() as int;
        let uarts = probes_pins(topology.probes).len() as int;
        match self {
            PinField::Swclk(i) => first(i),
            PinField::Swdio(i) => first(i) + 1,
            PinField::Reset(i) => first(i) + 2,
            PinField::Tx(i) => uarts + 2 * i,
            PinField::Rx(i) => uarts + 2 * i + 1,
        }
    }
}

/// The pins of earlier probes stand before those of later ones.
proof fn lemma_probe_starts(probes: Seq<ProbeConfig>, i: int, j: int)
    requires
        0 <= i < j <= probes.len(),
    ensures
        probes_pins(probes.take(i)).len() + probe_pins(probes[i]).len() <= probes_pins(
            probes.take(j),
        ).len(),
    decreases j - i,
{
    assert(probes.take(j).drop_last() =~= probes.take(j - 1));
    if i < j - 1 {
        lemma_probe_starts(probes, i, j - 1);
    }
}

/// The pins of one probe among the pins of all.
proof fn lemma_probe_field(probes: Seq<ProbeConfig>, i: int)
    requires
        0 <= i < probes.len(),
    ensures
        ({
            let at = probes_pins(probes.take(i)).len() as int;
            let all = probes_pins(probes);
            &&& at + probe_pins(probes[i]).len() <= all.len()
            &&& all[at] == probes[i].swclk
            &&& all[at + 1] == probes[i].swdio
            &&& probes[i].reset matches Some(reset) ==> all[at + 2] == reset
        }),
{
    let rest = lemma_probes_pins_prefix(probes, i + 1);
    assert(probes.take(i + 1).drop_last() =~= probes.take(i));
    let mine = probe_pins(probes[i]);
    let at = probes_pins(probes.take(i)).len() as int;
    let all = probes_pins(probes);
    assert(all == probes_pins(probes.take(i)) + mine + rest);
    assert(all[at] == mine[0]);
    assert(all[at + 1] == mine[1]);
    if probes[i].reset is Some {
        assert(all[at + 2] == mine[2]);
    }
}

/// The pins of one bridge among the pins of all.
proof fn lemma_uart_field(uarts: Seq<UartConfig>, i: int)
    requires
        0 <= i < uarts.len(),
    ensures
        uarts_pins(uarts).len() == 2 * uarts.len(),
        uarts_pins(uarts)[2 * i] == uarts[i].tx,
        uarts_pins(uarts)[2 * i + 1] == uarts[i].rx,
    decreases uarts.len(),
{
    reveal_with_fuel(uarts_pins, 2);
    let shorter = uarts.drop_last();
    if i < uarts.len() - 1 {
        lemma_uart_field(shorter, i);
    } else if uarts.len() > 1 {
        lemma_uart_field(shorter, 0);
    }
}

/// A field stands where its position says, and no other field stands there.
proof fn lemma_fields(topology: TopologySpec, f: PinField, g: PinField)
    requires
        f.pin(topology) is Some,
    ensures
        0 <= f.position(topology) < topology.pins().len(),
        topology.pins()[f.position(topology)] == f.pin(topology)->0,
        g.pin(topology) is Some && f.position(topology) == g.position(topology) ==> f == g,
{
    let probes = topology.probes;
    let n = probes_pins(probes).len();
    match f {
        PinField::Swclk(i) | PinField::Swdio(i) | PinField::Reset(i) => {
            lemma_probe_field(probes, i);
        },
        PinField::Tx(i) | PinField::Rx(i) => {
            lemma_uart_field(topology.uarts, i);
        },
    }
    if g.pin(topology) is Some {
        match g {
            PinField::Swclk(j) | PinField::Swdio(j) | PinField::Reset(j) => {
                lemma_probe_field(probes, j);
                match f {
                    PinField::Swclk(i) | PinField::Swdio(i) | PinField::Reset(i) => {
                        if i < j {
                            lemma_probe_starts(probes, i, j);
                        }
                        if j < i {
                            lemma_probe_starts(probes, j, i);
                        }
                    },
                    _ => {},
                }
            },
            PinField::Tx(j) | PinField::Rx(j) => {
                lemma_uart_field(topology.uarts, j);
            },
        }
    }
}

/// Every pin of a list of probes is a field of one.
proof fn lemma_probes_field_at(probes: Seq<ProbeConfig>, k: int) -> (f: PinField)
    requires
        0 <= k < probes_pins(probes).len(),
    ensures
        ({
            let whole = TopologySpec { probes, uarts: Seq::empty() };
            f.pin(whole) == Some(probes_pins(probes)[k]) && f.position(whole) == k
        }),
        f is Swclk || f is Swdio || f is Reset,
    decreases probes.len(),
{
    let whole = TopologySpec { probes, uarts: Seq::empty() };
    let shorter = probes.drop_last();
    let n = probes_pins(shorter).len();
    let last = probes.len() - 1;
    assert(probes.take(last) =~= shorter);
    if k < n {
        let f = lemma_probes_field_at(shorter, k);
        match f {
            PinField::Swclk(i) | PinField::Swdio(i) | PinField::Reset(i) => {
                assert(shorter.take(i) =~= probes.take(i));
            },
            _ => {},
        }
        f
    } else if k == n {
        PinField::Swclk(last)
    } else if k == n + 1 {
        PinField::Swdio(last)
    } else {
        PinField::Reset(last)
    }
}

/// Every pin of a topology is a field of it.
proof fn lemma_field_at(topology: TopologySpec, k: int) -> (f: PinField)
    requires
        0 <= k < topology.pins().len(),
    ensures
        f.pin(topology) == Some(topology.pins()[k]),
        f.position(topology) == k,
{
    let n = probes_pins(topology.probes).len();
    if k < n {
        let f = lemma_probes_field_at(topology.probes, k);
        f
    } else {
        let i = (k - n) / 2;
        if topology.uarts.len() > 0 {
            lemma_uart_field(topology.uarts, 0);
            lemma_uart_field(topology.uarts, i);
        }
        if (k - n) % 2 == 0 {
            PinField::Tx(i)
        } else {
            PinField::Rx(i)
        }
    }
}

/// `pin` exists on the chip, is wired out and is not reserved: its bit is set in the one
/// mask and clear in the other.
pub open spec fn may_use(pin: u8, chip: ChipLimits, profile: BoardProfile) -> bool {
    &&& pin < chip.gpio_count
    &&& pin < 64
    &&& profile.available & (1u64 << pin) != 0
    &&& profile.reserved & (1u64 << pin) == 0
}

/// Every field of every probe and bridge names a pin that may be used.
pub open spec fn fields_usable(
    topology: TopologySpec,
    chip: ChipLimits,
    profile: BoardProfile,
) -> bool {
    &&& forall|i: int|
        0 <= i < topology.probes.len() ==> may_use(
            (#[trigger] topology.probes[i]).swclk,
            chip,
            profile,
        ) && may_use(topology.probes[i].swdio, chip, profile) && (
        topology.probes[i].reset matches Some(reset) ==> may_use(reset, chip, profile))
    &&& forall|i: int|
        0 <= i < topology.uarts.len() ==> may_use((#[trigger] topology.uarts[i]).tx, chip, profile)
            && may_use(topology.uarts[i].rx, chip, profile)
}

/// No two fields, of the same or of different probes and bridges, name the same pin.
pub open spec fn fields_distinct(topology: TopologySpec) -> bool {
    let probes = topology.probes;
    let uarts = topology.uarts;
    &&& forall|i: int, j: int|
        0 <= i < probes.len() && 0 <= j < probes.len() ==> (#[trigger] probes[i]).swclk != (
        #[trigger] probes[j]).swdio
    &&& forall|i: int, j: int|
        0 <= i < probes.len() && 0 <= j < probes.len() && i != j ==> (#[trigger] probes[i]).swclk
            != (#[trigger] probes[j]).swclk && probes[i].swdio != probes[j].swdio
    &&& forall|i: int, j: int|
        0 <= i < probes.len() && 0 <= j < probes.len() ==> ((
        #[trigger] probes[i]).reset matches Some(reset) ==> reset != (#[trigger] probes[j]).swclk
            && reset != probes[j].swdio && (i != j ==> probes[j].reset != Some(reset)))
    &&& forall|i: int, j: int|
        0 <= i < probes.len() && 0 <= j < uarts.len() ==> (#[trigger] probes[i]).swclk != (
        #[trigger] uarts[j]).tx && probes[i].swclk != uarts[j].rx && probes[i].swdio != uarts[j].tx
            && probes[i].swdio != uarts[j].rx && probes[i].reset != Some(uarts[j].tx)
            && probes[i].reset != Some(uarts[j].rx)
    &&& forall|i: int, j: int|
        0 <= i < uarts.len() && 0 <= j < uarts.len() ==> (#[trigger] uarts[i]).tx != (
        #[trigger] uarts[j]).rx
    &&& forall|i: int, j: int|
        0 <= i < uarts.len() && 0 <= j < uarts.len() && i != j ==> (#[trigger] uarts[i]).tx != (
        #[trigger] uarts[j]).tx && uarts[i].rx != uarts[j].rx
}

/// The hardware UART that a multiple of four below 32 is a TX pin of, and the pin after it
/// an RX pin: they change every eight pins, first after four.
pub open spec fn muxed_to(tx: int) -> int {
    ((tx + 4) / 8) % 2
}

/// Every bridge has a TX and an RX pin of one hardware UART, and no two have the same.
pub open spec fn bridges_muxed(uarts: Seq<UartConfig>) -> bool {
    &&& forall|i: int|
        0 <= i < uarts.len() ==> (#[trigger] uarts[i]).tx % 4 == 0 && uarts[i].tx <= 28
            && uarts[i].rx % 4 == 1 && uarts[i].rx <= 29 && muxed_to(uarts[i].tx as int)
            == muxed_to(uarts[i].rx - 1)
    &&& forall|i: int, j: int|
        0 <= i < j < uarts.len() ==> muxed_to((#[trigger] uarts[i]).tx as int) != muxed_to(
            (#[trigger] uarts[j]).tx as int,
        )
}

/// The pins of the hardware UARTs: every fourth GPIO up to 28 is a TX pin, the GPIO after
/// it an RX pin of the same UART, and no other GPIO is either.
pub proof fn uart_pins_come_in_pairs(pin: u8)
    ensures
        tx_instance(pin) is Some <==> pin % 4 == 0 && pin <= 28,
        rx_instance(pin) is Some <==> pin % 4 == 1 && pin <= 29,
        tx_instance(pin) matches Some(instance) ==> instance == muxed_to(pin as int)
            && rx_instance((pin + 1) as u8) == Some(instance),
        rx_instance(pin) matches Some(instance) ==> instance == muxed_to(pin - 1) && tx_instance(
            (pin - 1) as u8,
        ) == Some(instance),
{
}

proof fn lemma_fields_acceptable(topology: TopologySpec, chip: ChipLimits, profile: BoardProfile)
    requires
        pins_acceptable(topology.pins(), chip, profile),
    ensures
        fields_usable(topology, chip, profile),
        fields_distinct(topology),
{
    let pins = topology.pins();
    assert forall|f: PinField|
        (#[trigger] f.pin(topology)) matches Some(pin) ==> may_use(pin, chip, profile) by {
        if f.pin(topology) is Some {
            lemma_fields(topology, f, f);
            assert(pins[f.position(topology)] < chip.gpio_count);
        }
    }
    assert forall|f: PinField, g: PinField|
        f != g && (#[trigger] f.pin(topology)) is Some implies f.pin(topology)
        != #[trigger] g.pin(topology) by {
        if g.pin(topology) is Some {
            lemma_fields(topology, f, g);
            lemma_fields(topology, g, f);
            if f.position(topology) < g.position(topology) {
                assert(pins[f.position(topology)] != pins[g.position(topology)]);
            } else {
                assert(pins[g.position(topology)] != pins[f.position(topology)]);
            }
        }
    }
    let probes = topology.probes;
    let uarts = topology.uarts;
    assert forall|i: int| 0 <= i < probes.len() implies PinField::Swclk(i).pin(topology) == Some(
        (#[trigger] probes[i]).swclk,
    ) && PinField::Swdio(i).pin(topology) == Some(probes[i].swdio) && PinField::Reset(i).pin(
        topology,
    ) == probes[i].reset by {}
    assert forall|i: int| 0 <= i < uarts.len() implies PinField::Tx(i).pin(topology) == Some(
        (#[trigger] uarts[i]).tx,
    ) && PinField::Rx(i).pin(topology) == Some(uarts[i].rx) by {}
}

proof fn lemma_acceptable_fields(topology: TopologySpec, chip: ChipLimits, profile: BoardProfile)
    requires
        fields_usable(topology, chip, profile),
        fields_distinct(topology),
    ensures
        pins_acceptable(topology.pins(), chip, profile),
{
    let pins = topology.pins();
    assert forall|k: int| 0 <= k < pins.len() implies #[trigger] pins[k] < chip.gpio_count
        && profile.assignable(pins[k]) by {
        let f = lemma_field_at(topology, k);
        assert(may_use(pins[k], chip, profile));
    }
    assert forall|k: int, l: int| 0 <= k < l < pins.len() implies pins[k] != pins[l] by {
        let f = lemma_field_at(topology, k);
        let g = lemma_field_at(topology, l);
        assert(f != g);
    }
}

/// A topology is accepted exactly when it has no more probes, and one for autobaud if there
/// is a bridge, than state machines, at most two bridges, no more IN endpoints than the
/// chip has, and every field that names a pin names one that may be used, no two of
/// them the same, and every bridge a hardware UART of its own. Said of the fields.
pub proof fn accepted_topologies_by_field(
    topology: TopologySpec,
    chip: ChipLimits,
    profile: BoardProfile,
)
    ensures
        topology.verdict(chip, profile) is Ok <==> {
            &&& topology.probes.len() + (if topology.uarts.len() > 0 {
                1int
            } else {
                0int
            }) <= chip.pio_blocks * chip.sms_per_block
            &&& topology.uarts.len() <= 2
            &&& topology.probes.len() + 2 * topology.uarts.len() <= chip.ep_numbers_per_dir
            &&& fields_usable(topology, chip, profile)
            &&& fields_distinct(topology)
            &&& bridges_muxed(topology.uarts)
        },
{
    accepted_topologies(topology, chip, profile);
    if pins_acceptable(topology.pins(), chip, profile) {
        lemma_fields_acceptable(topology, chip, profile);
    }
    if fields_usable(topology, chip, profile) && fields_distinct(topology) {
        lemma_acceptable_fields(topology, chip, profile);
    }
    assert forall|i: int| 0 <= i < topology.uarts.len() implies (tx_instance(
        (#[trigger] topology.uarts[i]).tx,
    ) is Some && rx_instance(topology.uarts[i].rx) == tx_instance(topology.uarts[i].tx) <==>
    topology.uarts[i].tx % 4 == 0 && topology.uarts[i].tx <= 28 && topology.uarts[i].rx % 4 == 1
        && topology.uarts[i].rx <= 29 && muxed_to(topology.uarts[i].tx as int) == muxed_to(
        topology.uarts[i].rx - 1,
    )) by {
        uart_pins_come_in_pairs(topology.uarts[i].tx);
        uart_pins_come_in_pairs(topology.uarts[i].rx);
    }
    assert(uarts_acceptable(topology.uarts) <==> bridges_muxed(topology.uarts)) by {
        assert forall|i: int| 0 <= i < topology.uarts.len() && tx_instance(
            (#[trigger] topology.uarts[i]).tx,
        ) is Some implies tx_instance(topology.uarts[i].tx)->0 == muxed_to(
            topology.uarts[i].tx as int,
        ) by {
            uart_pins_come_in_pairs(topology.uarts[i].tx);
        }
    }
}

/// A field of the topology names `pin`.
pub open spec fn named_by(topology: TopologySpec, pin: u8) -> bool {
    ||| exists|i: int|
        0 <= i < topology.probes.len() && ((#[trigger] topology.probes[i]).swclk == pin
            || topology.probes[i].swdio == pin || topology.probes[i].reset == Some(pin))
    ||| exists|i: int|
        0 <= i < topology.uarts.len() && ((#[trigger] topology.uarts[i]).tx == pin
            || topology.uarts[i].rx == pin)
}

/// What makes a list of pins fail is true of the pin that is reported, and of no pin
/// before it.
proof fn lemma_pins_verdict_says_why(pins: Seq<u8>, chip: ChipLimits, profile: BoardProfile) -> (
    k: int)
    requires
        pins_verdict(pins, chip, profile) is Err,
    ensures
        0 <= k < pins.len(),
        pins_acceptable(pins.take(k), chip, profile),
        pins_verdict(pins, chip, profile) == Err::<(), ValidationError>(
            ValidationError::PinUnavailable(pins[k]),
        ) && !may_use(pins[k], chip, profile) || pins_verdict(pins, chip, profile) == Err::<
            (),
            ValidationError,
        >(ValidationError::PinConflict(pins[k])) && may_use(pins[k], chip, profile) && pins.take(
            k,
        ).contains(pins[k]),
    decreases pins.len(),
{
    let shorter = pins.drop_last();
    if pins_verdict(shorter, chip, profile) is Err {
        let k = lemma_pins_verdict_says_why(shorter, chip, profile);
        assert(shorter.take(k) =~= pins.take(k));
        k
    } else {
        lemma_pins_acceptable(shorter, chip, profile);
        assert(pins.take(pins.len() - 1) =~= shorter);
        pins.len() - 1
    }
}

/// The bridge that makes the bridges fail.
proof fn lemma_uarts_verdict_says_why(uarts: Seq<UartConfig>) -> (k: int)
    requires
        uarts_verdict(uarts) is Err,
    ensures
        0 <= k < uarts.len(),
        uarts_acceptable(uarts.take(k)),
        uarts_verdict(uarts) == uart_verdict(uarts.take(k), uarts[k]),
    decreases uarts.len(),
{
    let shorter = uarts.drop_last();
    if uarts_verdict(shorter) is Err {
        let k = lemma_uarts_verdict_says_why(shorter);
        assert(shorter.take(k) =~= uarts.take(k));
        k
    } else {
        lemma_uarts_acceptable(shorter);
        assert(uarts.take(uarts.len() - 1) =~= shorter);
        uarts.len() - 1
    }
}

/// A rejection is true. Too many probes, too many bridges and too many endpoints are told
/// first, in this order, and exactly when they are. An unavailable pin is one that a
/// field names and that may not be used; a conflict is about a pin that may be used and
/// that two fields name. Only when the pins are in order are bridges rejected: for a TX
/// pin of one that has no RX pin of the same UART, or for a UART that two of them use.
/// Nothing else is ever reported of a topology.
pub proof fn rejections_are_true(topology: TopologySpec, chip: ChipLimits, profile: BoardProfile)
    ensures
        ({
            let machines = topology.probes.len() + if topology.uarts.len() > 0 {
                1int
            } else {
                0int
            };
            let crowded = machines > chip.pio_blocks * chip.sms_per_block;
            let bridged = topology.uarts.len() > 2;
            let ended = topology.probes.len() + 2 * topology.uarts.len() > chip.ep_numbers_per_dir;
            let pins_right = fields_usable(topology, chip, profile) && fields_distinct(topology);
            let verdict = topology.verdict(chip, profile);
            &&& verdict == Err::<(), ValidationError>(ValidationError::TooManyProbes) <==> crowded
            &&& verdict == Err::<(), ValidationError>(ValidationError::TooManyUarts) <==> !crowded
                && bridged
            &&& verdict == Err::<(), ValidationError>(ValidationError::EndpointBudget) <==> !crowded
                && !bridged && ended
            &&& verdict matches Err(ValidationError::PinUnavailable(pin)) ==> named_by(topology, pin)
                && !may_use(pin, chip, profile)
            &&& verdict matches Err(ValidationError::PinConflict(pin)) ==> named_by(topology, pin)
                && may_use(pin, chip, profile) && !fields_distinct(topology)
            &&& verdict matches Err(ValidationError::UartPinMux(pin)) ==> pins_right && exists|
                i: int,
            |
                0 <= i < topology.uarts.len() && (#[trigger] topology.uarts[i]).tx == pin && !(pin
                    % 4 == 0 && pin <= 28 && topology.uarts[i].rx % 4 == 1 && topology.uarts[i].rx
                    <= 29 && muxed_to(pin as int) == muxed_to(topology.uarts[i].rx - 1))
            &&& verdict matches Err(ValidationError::UartInstanceConflict(instance)) ==> pins_right
                && exists|i: int, j: int|
                0 <= i < j < topology.uarts.len() && muxed_to(
                    (#[trigger] topology.uarts[i]).tx as int,
                ) == instance && muxed_to((#[trigger] topology.uarts[j]).tx as int) == instance
            &&& !(verdict matches Err(ValidationError::PioWindow))
            &&& !(verdict matches Err(ValidationError::ProfilePinRange))
            &&& !(verdict matches Err(ValidationError::ProfileEmpty))
        }),
{
    let pins = topology.pins();
    if pins_verdict(pins, chip, profile) is Err {
        let k = lemma_pins_verdict_says_why(pins, chip, profile);
        let f = lemma_field_at(topology, k);
        match f {
            PinField::Swclk(i) | PinField::Swdio(i) | PinField::Reset(i) => {
                assert(topology.probes[i] == topology.probes[i]);
            },
            PinField::Tx(i) | PinField::Rx(i) => {
                assert(topology.uarts[i] == topology.uarts[i]);
            },
        }
        assert(named_by(topology, pins[k]));
        if pins.take(k).contains(pins[k]) && fields_distinct(topology) {
            let l = choose|l: int| 0 <= l < k && pins.take(k)[l] == pins[k];
            let g = lemma_field_at(topology, l);
            assert(pins[l] == pins[k]);
            assert(f != g);
            assert(f.pin(topology) == g.pin(topology));
            assert(false);
        }
    } else {
        lemma_pins_acceptable(pins, chip, profile);
        lemma_fields_acceptable(topology, chip, profile);
        if uarts_verdict(topology.uarts) is Err {
            let k = lemma_uarts_verdict_says_why(topology.uarts);
            let uart = topology.uarts[k];
            uart_pins_come_in_pairs(uart.tx);
            uart_pins_come_in_pairs(uart.rx);
            if uarts_verdict(topology.uarts) is Err && uarts_verdict(
                topology.uarts,
            )->Err_0 is UartInstanceConflict {
                let earlier = topology.uarts.take(k);
                let instance = tx_instance(uart.tx)->0;
                let i = choose|i: int|
                    0 <= i < earlier.len() && tx_instance(#[trigger] earlier[i].tx) == Some(
                        instance,
                    );
                uart_pins_come_in_pairs(topology.uarts[i].tx);
                assert(earlier[i] == topology.uarts[i]);
                assert(muxed_to(topology.uarts[i].tx as int) == instance);
                assert(muxed_to(topology.uarts[k].tx as int) == instance);
            }
        }
    }
}

/// The pins are looked at in the order of the probes, the clock, the data and the reset
/// pin of each, and then in the order of the bridges, TX before RX; the first that is
/// wrong decides.
pub proof fn pins_are_looked_at_in_order(
    topology: TopologySpec,
    probe: ProbeConfig,
    uart: UartConfig,
    pins: Seq<u8>,
    more: Seq<u8>,
    chip: ChipLimits,
    profile: BoardProfile,
)
    ensures
        (TopologySpec { probes: seq![probe], uarts: seq![uart] }).pins() == if probe.reset is Some {
            seq![probe.swclk, probe.swdio, probe.reset->0, uart.tx, uart.rx]
        } else {
            seq![probe.swclk, probe.swdio, uart.tx, uart.rx]
        },
        (TopologySpec { probes: topology.probes.push(probe), uarts: Seq::empty() }).pins() == (
        TopologySpec { probes: topology.probes, uarts: Seq::empty() }).pins() + (TopologySpec {
            probes: seq![probe],
            uarts: Seq::empty(),
        }).pins(),
        (TopologySpec { uarts: topology.uarts.push(uart), ..topology }).pins() == topology.pins()
            + seq![uart.tx, uart.rx],
        pins_verdict(pins, chip, profile) is Err ==> pins_verdict(pins + more, chip, profile)
            == pins_verdict(pins, chip, profile),
{
    reveal_with_fuel(probes_pins, 2);
    reveal_with_fuel(uarts_pins, 2);
    let single = TopologySpec { probes: seq![probe], uarts: seq![uart] };
    assert(single.probes.drop_last() =~= Seq::empty());
    assert(single.uarts.drop_last() =~= Seq::empty());
    assert(single.pins() =~= if probe.reset is Some {
        seq![probe.swclk, probe.swdio, probe.reset->0, uart.tx, uart.rx]
    } else {
        seq![probe.swclk, probe.swdio, uart.tx, uart.rx]
    });
    assert(topology.probes.push(probe).drop_last() =~= topology.probes);
    assert(topology.uarts.push(uart).drop_last() =~= topology.uarts);
    assert((TopologySpec { probes: topology.probes.push(probe), uarts: Seq::empty() }).pins() =~= (
    TopologySpec { probes: topology.probes, uarts: Seq::empty() }).pins() + (TopologySpec {
        probes: seq![probe],
        uarts: Seq::empty(),
    }).pins());
    assert((TopologySpec { uarts: topology.uarts.push(uart), ..topology }).pins()
        =~= topology.pins() + seq![uart.tx, uart.rx]);
    if pins_verdict(pins, chip, profile) is Err {
        lemma_pins_verdict_prefix(pins, more, chip, profile);
    }
}

/// A profile is valid exactly when its available mask has no bit at or above the chip's
/// GPIO count, and has a bit that the reserved mask has not. Bits that do not exist are
/// told first.
pub proof fn profiles_are_judged_by_their_masks(profile: BoardProfile, chip: ChipLimits, pin: u8)
    ensures
        profile.assignable(pin) <==> pin < 64 && profile.available & (1u64 << pin) != 0
            && profile.reserved & (1u64 << pin) == 0,
        profile.verdict(chip) == Err::<(), ValidationError>(ValidationError::ProfilePinRange) <==>
            chip.gpio_count < 64 && profile.available >> chip.gpio_count != 0,
        profile.verdict(chip) == Err::<(), ValidationError>(ValidationError::ProfileEmpty) <==> !(
        chip.gpio_count < 64 && profile.available >> chip.gpio_count != 0) && profile.available
            & !profile.reserved == 0,
        profile.verdict(chip) is Err ==> profile.verdict(chip)->Err_0 is ProfilePinRange
            || profile.verdict(chip)->Err_0 is ProfileEmpty,
{
    let available = profile.available;
    let count = chip.gpio_count;
    let left = available & !profile.reserved;
    if count < 64 && (forall|q: u8| count <= q < 64 ==> !bits::has_pin(available, q)) {
        bits::lemma_high_bits(available, count);
    }
    if exists|q: u8| bits::has_pin(available, q) && q >= count {
        let q = choose|q: u8| bits::has_pin(available, q) && q >= count;
        assert(count <= q < 64 && available & (1u64 << q) != 0 ==> available >> count != 0)
            by (bit_vector);
    }
    assert forall|q: u8| bits::has_pin(left, q) == profile.assignable(q) by {
        bits::lemma_minus_pins(available, profile.reserved, q);
    }
    if forall|q: u8| !profile.assignable(q) {
        bits::lemma_all_clear(left);
    }
    if left == 0 {
        assert forall|q: u8| !profile.assignable(q) by {
            bits::lemma_no_pin(q);
        }
    }
}

/// On a bare Pico the pins on the headers are assignable, and no others: 0 to 22 and 26
/// to 28.
pub proof fn pico_headers_are_assignable(pin: u8)
    ensures
        BoardProfile::pico().assignable(pin) <==> pin <= 22 || 26 <= pin <= 28,
{
    assert(pin < 64 ==> ((0x1FFF_FFFFu64 & (1u64 << pin) != 0 && 0x2380_0000u64 & (1u64 << pin)
        == 0) <==> (pin <= 22 || 26 <= pin <= 28))) by (bit_vector);
}

/// What the chips have: an RP2350 one PIO block more than an RP2040, and in its larger
/// package 18 GPIOs more; four state machines to each block, and fifteen endpoints
/// each way.
pub proof fn chips_have_their_limits()
    ensures
        rp2040().pio_blocks == 2 && rp2350a().pio_blocks == 3 && rp2350b().pio_blocks == 3,
        rp2040().gpio_count == 30 && rp2350a().gpio_count == 30 && rp2350b().gpio_count == 48,
        forall|chip: ChipLimits|
            chip == rp2040() || chip == rp2350a() || chip == rp2350b() ==> (
            #[trigger] chip.sms_per_block) == 4 && chip.ep_numbers_per_dir == 15
                && chip.pio_pin_window == 32,
{
}

/// The pins of probes are those that their fields name.
pub proof fn probes_have_the_pins_of_their_fields(probes: Seq<ProbeConfig>, pin: u8)
    ensures
        probes_pins(probes).contains(pin) <==> exists|i: int|
            0 <= i < probes.len() && ((#[trigger] probes[i]).swclk == pin || probes[i].swdio == pin
                || probes[i].reset == Some(pin)),
{
    if probes_pins(probes).contains(pin) {
        let k = choose|k: int| 0 <= k < probes_pins(probes).len() && probes_pins(probes)[k] == pin;
        let f = lemma_probes_field_at(probes, k);
        match f {
            PinField::Swclk(i) | PinField::Swdio(i) | PinField::Reset(i) => {
                assert(probes[i] == probes[i]);
            },
            _ => {},
        }
    }
    if exists|i: int|
        0 <= i < probes.len() && ((#[trigger] probes[i]).swclk == pin || probes[i].swdio == pin
            || probes[i].reset == Some(pin)) {
        let i = choose|i: int|
            0 <= i < probes.len() && ((#[trigger] probes[i]).swclk == pin || probes[i].swdio == pin
                || probes[i].reset == Some(pin));
        lemma_probe_field(probes, i);
        let at = probes_pins(probes.take(i)).len() as int;
        assert(probes_pins(probes)[at] == probes[i].swclk);
        assert(probes_pins(probes)[at + 1] == probes[i].swdio);
    }
}

} // verus!
