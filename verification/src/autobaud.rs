//! Autobaud sessions: when the edge-timer capture runs, for which UART, and on
//! which PIO state machine.
//!
//! When the host selects [`MAGIC_BAUD`](crate::uart_bridge::MAGIC_BAUD) on a serial
//! port, the bridge asks for a session with [`start`]. The capture engine then
//! pulls blocks of [`CHUNK`] edge-timer words, feeds them to the session's
//! estimator and publishes what it finds, until [`stop`]. One state machine is
//! claimed for this at boot: the next free one after the probes'.

use vstd::prelude::*;

use crate::autobaud_estimator::{BaudEstimator, EstimatorSpec};
use crate::config;
use crate::config::{BoardProfile, ChipLimits, TopologySpec, MAX_PROBES};
use crate::instances;
use crate::instances::{Slot, SMS_PER_BLOCK};

verus! {

/// PIO clock the edge timer runs at, in Hz.
pub const PIO_CLOCK_HZ: u32 = 125_000_000;

/// Words pulled per DMA transfer before the block is handed to the estimator.
pub const CHUNK: usize = 128;

/// Host to engine command: which UART's RX to snoop, or stop.
#[derive(Debug, Clone, Copy, PartialEq, Eq, Structural)]
pub enum Command {
    /// Measure this UART's target on this pin.
    Start {
        /// Index of the UART bridge.
        uart: u8,
        /// Its RX pin.
        rx_pin: u8,
    },
    /// End the session.
    Stop,
}

/// A detected baud rate, tagged with the UART it belongs to.
#[derive(Debug, Clone, Copy, PartialEq, Eq, Structural)]
pub struct BaudResult {
    /// Index of the UART bridge this estimate is for.
    pub uart: u8,
    /// Detected baud rate.
    pub baud: u32,
}

/// The command to begin measuring `uart`'s target baud, snooping `rx_pin`.
pub fn start(uart: u8, rx_pin: u8) -> (r: Command)
    ensures
        r == (Command::Start { uart, rx_pin }),
{
    Command::Start { uart, rx_pin }
}

/// The command to stop the current session.
pub fn stop() -> (r: Command)
    ensures
        r == Command::Stop,
{
    Command::Stop
}

/// What the capture hardware has to do after a command.
#[derive(Debug, Clone, Copy, PartialEq, Eq, Structural)]
pub enum CaptureAction {
    /// Nothing: stay as it is.
    Keep,
    /// Point the edge timer at this pin and start capturing.
    Arm(u8),
    /// Stop capturing.
    Disarm,
}

/// The capture engine's state.
pub struct CaptureEngine {
    /// The UART that a running session is for.
    pub active: Option<u8>,
    /// The samples of the session.
    pub estimator: BaudEstimator,
}

/// The contents of a [`CaptureEngine`].
#[verifier::ext_equal]
pub struct EngineSpec {
    /// The UART that a running session is for.
    pub active: Option<u8>,
    /// The samples of the session.
    pub estimator: EstimatorSpec,
}

impl EngineSpec {
    /// The engine after `command`. Every session starts without samples.
    pub open spec fn after(self, command: Command) -> EngineSpec {
        match command {
            Command::Start { uart, rx_pin } => EngineSpec {
                active: Some(uart),
                estimator: EstimatorSpec::fresh(self.estimator.clock_hz),
            },
            Command::Stop => EngineSpec { active: None, ..self },
        }
    }

    /// What is published when the last estimate of a block is `baud`.
    pub open spec fn publication(self, baud: Option<u32>) -> Option<BaudResult> {
        match (self.active, baud) {
            (Some(uart), Some(baud)) => Some(BaudResult { uart, baud }),
            _ => None,
        }
    }

    /// What the hardware has to do on `command`.
    pub open spec fn action(self, command: Command) -> CaptureAction {
        match command {
            Command::Start { uart, rx_pin } => CaptureAction::Arm(rx_pin),
            Command::Stop => if self.active is Some {
                CaptureAction::Disarm
            } else {
                CaptureAction::Keep
            },
        }
    }
}

impl View for CaptureEngine {
    type V = EngineSpec;

    open spec fn view(&self) -> EngineSpec {
        EngineSpec { active: self.active, estimator: self.estimator@ }
    }
}

impl CaptureEngine {
    /// The estimator is well-formed.
    pub open spec fn wf(&self) -> bool {
        self.estimator.wf()
    }

    /// An engine without a session.
    pub fn new() -> (r: CaptureEngine)
        ensures
            r.wf(),
            r@ == (EngineSpec { active: None, estimator: EstimatorSpec::fresh(PIO_CLOCK_HZ) }),
    {
        CaptureEngine { active: None, estimator: BaudEstimator::new(PIO_CLOCK_HZ) }
    }

    /// Whether the engine pulls blocks, next to waiting for commands.
    pub fn is_capturing(&self) -> (r: bool)
        ensures
            r == (self@.active is Some),
    {
        self.active.is_some()
    }

    /// Take up a command.
    pub fn command(&mut self, command: Command) -> (r: CaptureAction)
        requires
            old(self).wf(),
        ensures
            final(self).wf(),
            final(self)@ == old(self)@.after(command),
            r == old(self)@.action(command),
    {
        match command {
            Command::Start { uart, rx_pin } => {
                self.estimator.reset();
                self.active = Some(uart);
                CaptureAction::Arm(rx_pin)
            },
            Command::Stop => if self.active.is_some() {
                self.active = None;
                CaptureAction::Disarm
            } else {
                CaptureAction::Keep
            },
        }
    }

    /// What to publish when the last estimate of a block is `baud`.
    pub fn publish(&self, baud: Option<u32>) -> (r: Option<BaudResult>)
        ensures
            r == self@.publication(baud),
    {
        match (self.active, baud) {
            (Some(uart), Some(baud)) => Some(BaudResult { uart, baud }),
            _ => None,
        }
    }
}

/// Where autobaud runs next to `n_probes` probes: on SM0 of the next block when the
/// probes fill theirs, and otherwise on the last state machine of the block that
/// they share. `None` when all blocks are full.
pub open spec fn autobaud_slot_of(n_probes: int) -> Option<(int, int)> {
    if n_probes >= MAX_PROBES {
        None
    } else if n_probes % 4 == 0 {
        Some((n_probes / 4, 0int))
    } else {
        Some((n_probes / 4, 3int))
    }
}

/// Where autobaud runs next to `n_probes` probes.
pub fn autobaud_slot(n_probes: usize) -> (r: Option<Slot>)
    ensures
        r is Some == autobaud_slot_of(n_probes as int) is Some,
        r matches Some(slot) ==> autobaud_slot_of(n_probes as int) == Some(
            (slot.block as int, slot.sm as int),
        ),
{
    if n_probes >= MAX_PROBES {
        None
    } else if n_probes % SMS_PER_BLOCK == 0 {
        Some(Slot { block: n_probes / SMS_PER_BLOCK, sm: 0 })
    } else {
        Some(Slot { block: n_probes / SMS_PER_BLOCK, sm: 3 })
    }
}

/// An accepted topology with a bridge leaves a state machine for autobaud: one of
/// a PIO block that exists, and none of the probes'.
pub proof fn autobaud_always_has_a_state_machine(
    topology: TopologySpec,
    chip: ChipLimits,
    profile: BoardProfile,
)
    requires
        topology.verdict(chip, profile) is Ok,
        topology.uarts.len() > 0,
        chip.sms_per_block == SMS_PER_BLOCK,
        chip.pio_blocks <= 3,
    ensures
        autobaud_slot_of(topology.probes.len() as int) matches Some((block, sm)) && {
            &&& block < chip.pio_blocks
            &&& sm < SMS_PER_BLOCK
            &&& forall|n: int|
                0 <= n < topology.probes.len() ==> #[trigger] instances::slot_of(n) != (block, sm)
        },
{
    config::accepted_topologies(topology, chip, profile);
    assert(chip.pio_blocks * chip.sms_per_block == 4 * chip.pio_blocks) by (nonlinear_arith)
        requires
            chip.sms_per_block == 4,
    ;
}

/// A session never sees the samples of an earlier one, whatever came before it.
pub proof fn sessions_start_without_samples(engine: EngineSpec, uart: u8, rx_pin: u8)
    ensures
        engine.after(Command::Start { uart, rx_pin }).active == Some(uart),
        engine.after(Command::Start { uart, rx_pin }).estimator == EstimatorSpec::fresh(
            engine.estimator.clock_hz,
        ),
{
}

/// What happens to a capture engine.
pub enum CaptureEvent {
    /// A command comes in.
    Command(Command),
    /// A block was pulled. It leaves the estimator like this, and this is its last
    /// estimate.
    Block {
        /// The samples of the session, with those of the block.
        left: EstimatorSpec,
        /// The last estimate of the block.
        baud: Option<u32>,
    },
}

/// A new engine after all of `events`. Blocks are pulled in sessions only.
pub open spec fn engine_after(events: Seq<CaptureEvent>) -> EngineSpec
    decreases events.len(),
{
    if events.len() == 0 {
        EngineSpec { active: None, estimator: EstimatorSpec::fresh(PIO_CLOCK_HZ) }
    } else {
        let engine = engine_after(events.drop_last());
        match events.last() {
            CaptureEvent::Command(command) => engine.after(command),
            CaptureEvent::Block { left, baud } => if engine.active is Some {
                EngineSpec { estimator: left, ..engine }
            } else {
                engine
            },
        }
    }
}

/// The latest command among `events`.
pub open spec fn latest_command(events: Seq<CaptureEvent>) -> Option<Command>
    decreases events.len(),
{
    if events.len() == 0 {
        None
    } else {
        match events.last() {
            CaptureEvent::Command(command) => Some(command),
            CaptureEvent::Block { .. } => latest_command(events.drop_last()),
        }
    }
}

/// How the blocks since the latest command left the estimator.
pub open spec fn blocks_since(events: Seq<CaptureEvent>) -> Seq<EstimatorSpec>
    decreases events.len(),
{
    if events.len() == 0 {
        Seq::empty()
    } else {
        match events.last() {
            CaptureEvent::Command(_) => Seq::empty(),
            CaptureEvent::Block { left, baud } => blocks_since(events.drop_last()).push(left),
        }
    }
}

/// Whatever came before, a block publishes its estimate exactly when the latest command
/// started a session, and for the UART of that command. Its samples are added to
/// those of the blocks since that command, and to no others.
pub proof fn sessions_publish_for_the_latest_start(events: Seq<CaptureEvent>, baud: Option<u32>)
    requires
        forall|i: int|
            0 <= i < events.len() ==> (#[trigger] events[i] matches CaptureEvent::Block {
                left,
                ..
            } ==> left.clock_hz == PIO_CLOCK_HZ),
    ensures
        engine_after(events).publication(baud) == match (latest_command(events), baud) {
            (Some(Command::Start { uart, .. }), Some(baud)) => Some(BaudResult { uart, baud }),
            _ => None,
        },
        latest_command(events) matches Some(Command::Start { .. }) ==> engine_after(
            events,
        ).estimator == if blocks_since(events).len() == 0 {
            EstimatorSpec::fresh(PIO_CLOCK_HZ)
        } else {
            blocks_since(events).last()
        },
{
    lemma_engine_after(events);
}

/// Which session is running after `events`, and what its estimator holds.
proof fn lemma_engine_after(events: Seq<CaptureEvent>)
    requires
        forall|i: int|
            0 <= i < events.len() ==> (#[trigger] events[i] matches CaptureEvent::Block {
                left,
                ..
            } ==> left.clock_hz == PIO_CLOCK_HZ),
    ensures
        engine_after(events).active == match latest_command(events) {
            Some(Command::Start { uart, .. }) => Some(uart),
            _ => None,
        },
        engine_after(events).estimator.clock_hz == PIO_CLOCK_HZ,
        engine_after(events).active is Some ==> engine_after(events).estimator
            == if blocks_since(events).len() == 0 {
            EstimatorSpec::fresh(PIO_CLOCK_HZ)
        } else {
            blocks_since(events).last()
        },
    decreases events.len(),
{
    if events.len() > 0 {
        let earlier = events.drop_last();
        assert forall|i: int| 0 <= i < earlier.len() implies (
        #[trigger] earlier[i] matches CaptureEvent::Block { left, .. } ==> left.clock_hz
            == PIO_CLOCK_HZ) by {
            assert(earlier[i] == events[i]);
        }
        lemma_engine_after(earlier);
        assert(events[events.len() - 1] == events.last());
    }
}

/// To stop without a session does nothing.
pub proof fn stopping_while_idle_does_nothing(engine: EngineSpec)
    requires
        engine.active is None,
    ensures
        engine.after(Command::Stop) == engine,
        engine.action(Command::Stop) == CaptureAction::Keep,
{
}

/// Autobaud finds a state machine next to up to eleven probes, in the block of the next
/// free one, past those of the probes: the first of its block where no probe shares the
/// block, and else the last.
pub proof fn autobaud_takes_the_next_block_or_the_last_machine(n_probes: int)
    requires
        n_probes >= 0,
    ensures
        autobaud_slot_of(n_probes) is None <==> n_probes >= 12,
        autobaud_slot_of(n_probes) matches Some((block, sm)) ==> {
            &&& 4 * block + sm >= n_probes
            &&& 4 * block <= n_probes < 4 * block + 4
            &&& sm == 0 || sm == 3
            &&& sm == 0 <==> 4 * block == n_probes
        },
{
}

/// Every start points the edge timer at the pin it names and makes its UART the one that
/// is measured, also in the middle of a session; a stop ends a session.
pub proof fn commands_drive_the_capture(engine: EngineSpec, uart: u8, rx_pin: u8)
    ensures
        engine.action(Command::Start { uart, rx_pin }) == CaptureAction::Arm(rx_pin),
        engine.after(Command::Start { uart, rx_pin }).active == Some(uart),
        engine.after(Command::Start { uart, rx_pin }).estimator.total == 0,
        engine.after(Command::Start { uart, rx_pin }).estimator.counts == Map::<u32, u32>::empty(),
        engine.after(Command::Start { uart, rx_pin }).estimator.clock_hz
            == engine.estimator.clock_hz,
        engine.after(Command::Stop).active is None,
        engine.action(Command::Stop) == CaptureAction::Disarm <==> engine.active is Some,
        engine.action(Command::Stop) == CaptureAction::Keep <==> engine.active is None,
{
}

} // verus!
