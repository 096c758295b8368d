//! The SWD transfer protocol, step by step, over any wire engine.
//!
//! A [`Transfer`] says which wire operation comes next, and takes up what the wire
//! answered, until it is done. The turnaround is fixed at 1 cycle, and there is no
//! data phase after a WAIT or FAULT acknowledgement. Eight trailing idle clocks are
//! driven after every transfer that was acknowledged: without them the last write
//! of a sequence would never commit.
//!
//! [`ProbeContext`] and [`ProbeSwd`] run transfers and sequences on a wire engine.
//! Their view is what the engine has done on the wire, and what the wire answered.

use vstd::prelude::*;

use crate::swd::{BusOp, SwdBus, WireEvent};

verus! {

/// Turnaround cycles.
pub const TRN: u32 = 1;

/// The bit of the reset line among the SWJ pins.
pub const NRESET: u8 = 0x80;

/// Which port a transfer addresses.
#[derive(Debug, Clone, Copy, PartialEq, Eq, Structural)]
pub enum APnDP {
    /// The debug port.
    DP,
    /// An access port.
    AP,
}

/// Whether a transfer reads or writes.
#[derive(Debug, Clone, Copy, PartialEq, Eq, Structural)]
pub enum RnW {
    /// Write.
    W,
    /// Read.
    R,
}

/// Which register a transfer addresses, by the names of the debug port.
#[derive(Debug, Clone, Copy, PartialEq, Eq, Structural)]
pub enum DPRegister {
    /// Address 0.
    DPIDR,
    /// Address 1.
    CTRLSTAT,
    /// Address 2.
    SELECT,
    /// Address 3.
    RDBUFF,
}

/// Why a transfer failed.
#[derive(Debug, Clone, Copy, PartialEq, Eq, Structural)]
pub enum SwdError {
    /// The data did not match its parity bit.
    BadParity,
    /// The target is not ready yet.
    AckWait,
    /// The target reports a fault.
    AckFault,
    /// Nothing drove the line.
    AckProtocol,
    /// An acknowledgement that is none.
    AckUnknown(u8),
}

/// The request byte of a transfer: start bit, port, direction, the two address bits,
/// their parity, a stop bit of 0 and the park bit.
pub open spec fn request_byte(apndp: APnDP, rnw: RnW, a: DPRegister) -> int {
    let ap: int = if apndp is AP {
        1
    } else {
        0
    };
    let read: int = if rnw is R {
        1
    } else {
        0
    };
    let low: int = if a is CTRLSTAT || a is RDBUFF {
        1
    } else {
        0
    };
    let high: int = if a is SELECT || a is RDBUFF {
        1
    } else {
        0
    };
    1 + 2 * ap + 4 * read + 8 * low + 16 * high + 32 * ((ap + read + low + high) % 2) + 128
}

/// `dap_rs::swd::make_request`: the request byte, with its parity bit.
#[verifier::external_body]
fn make_request(apndp: APnDP, rnw: RnW, a: DPRegister) -> (r: u8)
    ensures
        r == request_byte(apndp, rnw, a),
{
    dap_rs::swd::make_request(
        match apndp { APnDP::DP => dap_rs::swd::APnDP::DP, APnDP::AP => dap_rs::swd::APnDP::AP },
        match rnw { RnW::W => dap_rs::swd::RnW::W, RnW::R => dap_rs::swd::RnW::R },
        match a {
            DPRegister::DPIDR => dap_rs::swd::DPRegister::DPIDR,
            DPRegister::CTRLSTAT => dap_rs::swd::DPRegister::CTRLSTAT,
            DPRegister::SELECT => dap_rs::swd::DPRegister::SELECT,
            DPRegister::RDBUFF => dap_rs::swd::DPRegister::RDBUFF,
        },
    )
}

/// What a three-bit acknowledgement means.
pub open spec fn ack_verdict(ack: u8) -> Result<(), SwdError> {
    if ack == 1 {
        Ok(())
    } else if ack == 2 {
        Err(SwdError::AckWait)
    } else if ack == 4 {
        Err(SwdError::AckFault)
    } else if ack == 7 {
        Err(SwdError::AckProtocol)
    } else {
        Err(SwdError::AckUnknown(ack))
    }
}

/// `dap_rs::swd::Ack::try_ok`: 1 is OK, 2 WAIT, 4 FAULT, 7 a protocol error, and
/// anything else no acknowledgement.
#[verifier::external_body]
fn try_ok(ack: u8) -> (r: Result<(), SwdError>)
    ensures
        r == ack_verdict(ack),
{
    match dap_rs::swd::Ack::try_ok(ack) {
        Ok(()) => Ok(()),
        Err(dap_rs::swd::Error::BadParity) => Err(SwdError::BadParity),
        Err(dap_rs::swd::Error::AckWait) => Err(SwdError::AckWait),
        Err(dap_rs::swd::Error::AckFault) => Err(SwdError::AckFault),
        Err(dap_rs::swd::Error::AckProtocol) => Err(SwdError::AckProtocol),
        Err(dap_rs::swd::Error::AckUnknown(other)) => Err(SwdError::AckUnknown(other)),
    }
}

/// The number of ones in the binary representation of `x`.
pub open spec fn ones(x: nat) -> nat
    decreases x,
{
    if x == 0 {
        0
    } else {
        x % 2 + ones(x / 2)
    }
}

/// `u32::count_ones`: the number of ones in the binary representation.
pub assume_specification[ u32::count_ones ](x: u32) -> (r: u32)
    ensures
        r == ones(x as nat),
;

/// The parity bit of a data word: 1 if it has an odd number of ones.
pub open spec fn parity_of(data: u32) -> nat {
    ones(data as nat) % 2
}

/// The parity bit of a data word.
pub fn parity_bit(data: u32) -> (r: u32)
    ensures
        r == parity_of(data),
{
    let count: u32 = data.count_ones();
    assert(count & 1 == count % 2) by (bit_vector);
    count & 1
}

/// The outcome of a read: the value, unless the parity bit that came with it is wrong.
pub open spec fn read_outcome(val: u32, parity: u32) -> Result<u32, SwdError> {
    if parity % 2 != parity_of(val) {
        Err(SwdError::BadParity)
    } else {
        Ok(val)
    }
}

/// The outcome of a read: the value, unless the parity bit that came with it is wrong.
pub fn check_parity(val: u32, parity: u32) -> (r: Result<u32, SwdError>)
    ensures
        r == read_outcome(val, parity),
{
    let count: u32 = val.count_ones();
    assert(((count ^ parity) & 1 != 0) == (count % 2 != parity % 2)) by (bit_vector);
    if (count ^ parity) & 1 != 0 {
        return Err(SwdError::BadParity);
    }
    Ok(val)
}

/// Where a transfer stands. Each phase is named after what the transfer waits for.
#[derive(Debug, Clone, Copy, PartialEq, Eq)]
pub enum Phase {
    /// The start.
    Begin,
    /// The request to be clocked out.
    Requested,
    /// The acknowledgement.
    Ack,
    /// The line to be backed off after a protocol error.
    Backoff(SwdError),
    /// The value of a read.
    Value,
    /// The parity bit of this value.
    ReadParity(u32),
    /// The turnaround before the data of a write.
    WriteTurnaround(u32),
    /// The data of a write.
    WriteData(u32),
    /// The line to be parked, with the outcome.
    Park(Result<u32, SwdError>),
    /// Nothing: the last operation is under way, and this is the outcome.
    Finished(Result<u32, SwdError>),
}

/// What a transfer does next.
#[derive(Debug, Clone, Copy, PartialEq, Eq)]
pub enum TransferStep {
    /// This wire operation.
    Op(BusOp),
    /// Nothing more: this is the outcome. A write's value is 0.
    Done(Result<u32, SwdError>),
}

/// One SWD transfer.
#[derive(Debug, Clone, Copy, PartialEq, Eq)]
pub struct Transfer {
    /// The request byte.
    pub request: u8,
    /// The data of a write.
    pub data: Option<u32>,
    /// Where the transfer stands.
    pub phase: Phase,
}

impl Transfer {
    /// A transfer that has not begun.
    pub open spec fn fresh(apndp: APnDP, a: DPRegister, data: Option<u32>) -> Transfer {
        Transfer {
            request: request_byte(
                apndp,
                if data is Some {
                    RnW::W
                } else {
                    RnW::R
                },
                a,
            ) as u8,
            data,
            phase: Phase::Begin,
        }
    }

    /// The acknowledgement in the bits read for it: it follows the turnaround.
    pub open spec fn ack_of(reply: u32) -> Result<(), SwdError> {
        ack_verdict((reply / 2) as u8)
    }

    /// What comes next, given what the last read operation gave, and the phase then.
    pub open spec fn next_of(self, reply: u32) -> (TransferStep, Phase) {
        match self.phase {
            Phase::Begin => (
                TransferStep::Op(BusOp::Write { bit_count: 8, data: self.request as u32 }),
                Phase::Requested,
            ),
            Phase::Requested => (TransferStep::Op(BusOp::Read(4)), Phase::Ack),
            Phase::Ack => match Transfer::ack_of(reply) {
                Ok(()) => match self.data {
                    None => (TransferStep::Op(BusOp::Read(32)), Phase::Value),
                    Some(data) => (TransferStep::Op(BusOp::HiZ(1)), Phase::WriteTurnaround(data)),
                },
                Err(e) => if e is AckWait || e is AckFault {
                    (TransferStep::Op(BusOp::HiZ(1)), Phase::Finished(Err(e)))
                } else {
                    (TransferStep::Op(BusOp::Read(33)), Phase::Backoff(e))
                },
            },
            Phase::Backoff(e) => (TransferStep::Op(BusOp::Read(1)), Phase::Finished(Err(e))),
            Phase::Value => (TransferStep::Op(BusOp::Read(1)), Phase::ReadParity(reply)),
            Phase::ReadParity(val) => (
                TransferStep::Op(BusOp::HiZ(1)),
                Phase::Park(read_outcome(val, reply)),
            ),
            Phase::WriteTurnaround(data) => (
                TransferStep::Op(BusOp::Write { bit_count: 32, data }),
                Phase::WriteData(data),
            ),
            Phase::WriteData(data) => (
                TransferStep::Op(BusOp::Write { bit_count: 1, data: parity_of(data) as u32 }),
                Phase::Park(Ok(0)),
            ),
            Phase::Park(outcome) => (
                TransferStep::Op(BusOp::Write { bit_count: 8, data: 0 }),
                Phase::Finished(outcome),
            ),
            Phase::Finished(outcome) => (TransferStep::Done(outcome), self.phase),
        }
    }

    /// The transfer after it took up `reply`.
    pub open spec fn after(self, reply: u32) -> Transfer {
        Transfer { phase: self.next_of(reply).1, ..self }
    }

    /// How many operations are left at most.
    pub open spec fn left(self) -> nat {
        match self.phase {
            Phase::Begin => 8,
            Phase::Requested => 7,
            Phase::Ack => 6,
            Phase::Backoff(_) => 1,
            Phase::Value => 4,
            Phase::ReadParity(_) => 3,
            Phase::WriteTurnaround(_) => 4,
            Phase::WriteData(_) => 3,
            Phase::Park(_) => 1,
            Phase::Finished(_) => 0,
        }
    }

    /// The transfer that reads register `a`.
    pub fn read(apndp: APnDP, a: DPRegister) -> (r: Transfer)
        ensures
            r == Transfer::fresh(apndp, a, None),
    {
        Transfer { request: make_request(apndp, RnW::R, a), data: None, phase: Phase::Begin }
    }

    /// The transfer that writes `data` to register `a`.
    pub fn write(apndp: APnDP, a: DPRegister, data: u32) -> (r: Transfer)
        ensures
            r == Transfer::fresh(apndp, a, Some(data)),
    {
        Transfer { request: make_request(apndp, RnW::W, a), data: Some(data), phase: Phase::Begin }
    }

    /// Decode the acknowledgement, which follows the read turnaround.
    fn read_ack(reply: u32) -> (r: Result<(), SwdError>)
        ensures
            r == Transfer::ack_of(reply),
    {
        assert(reply >> 1 == reply / 2) by (bit_vector);
        try_ok(#[verifier::truncate] ((reply >> TRN) as u8))
    }

    /// Take up what the last read operation gave (anything, after another operation),
    /// and say what comes next.
    pub fn next(&mut self, reply: u32) -> (r: TransferStep)
        ensures
            *final(self) == old(self).after(reply),
            r == old(self).next_of(reply).0,
    {
        match self.phase {
            Phase::Begin => {
                self.phase = Phase::Requested;
                TransferStep::Op(BusOp::Write { bit_count: 8, data: self.request as u32 })
            },
            Phase::Requested => {
                self.phase = Phase::Ack;
                TransferStep::Op(BusOp::Read(TRN + 3))
            },
            Phase::Ack => match Transfer::read_ack(reply) {
                Ok(()) => match self.data {
                    None => {
                        self.phase = Phase::Value;
                        TransferStep::Op(BusOp::Read(32))
                    },
                    Some(data) => {
                        self.phase = Phase::WriteTurnaround(data);
                        TransferStep::Op(BusOp::HiZ(TRN))
                    },
                },
                Err(SwdError::AckWait) => {
                    self.phase = Phase::Finished(Err(SwdError::AckWait));
                    TransferStep::Op(BusOp::HiZ(TRN))
                },
                Err(SwdError::AckFault) => {
                    self.phase = Phase::Finished(Err(SwdError::AckFault));
                    TransferStep::Op(BusOp::HiZ(TRN))
                },
                Err(e) => {
                    self.phase = Phase::Backoff(e);
                    TransferStep::Op(BusOp::Read(TRN + 32))
                },
            },
            Phase::Backoff(e) => {
                self.phase = Phase::Finished(Err(e));
                TransferStep::Op(BusOp::Read(1))
            },
            Phase::Value => {
                self.phase = Phase::ReadParity(reply);
                TransferStep::Op(BusOp::Read(1))
            },
            Phase::ReadParity(val) => {
                self.phase = Phase::Park(check_parity(val, reply));
                TransferStep::Op(BusOp::HiZ(TRN))
            },
            Phase::WriteTurnaround(data) => {
                self.phase = Phase::WriteData(data);
                TransferStep::Op(BusOp::Write { bit_count: 32, data })
            },
            Phase::WriteData(data) => {
                self.phase = Phase::Park(Ok(0));
                TransferStep::Op(BusOp::Write { bit_count: 1, data: parity_bit(data) })
            },
            Phase::Park(outcome) => {
                self.phase = Phase::Finished(outcome);
                TransferStep::Op(BusOp::Write { bit_count: 8, data: 0 })
            },
            Phase::Finished(outcome) => TransferStep::Done(outcome),
        }
    }
}

/// The wire operations of a transfer, when its `n`-th step from step `i` on takes up `replies[n]`.
pub open spec fn operations(transfer: Transfer, replies: Seq<u32>, i: int) -> Seq<BusOp>
    decreases transfer.left(),
{
    match transfer.next_of(replies[i]).0 {
        TransferStep::Op(op) => seq![op] + operations(transfer.after(replies[i]), replies, i + 1),
        TransferStep::Done(_) => Seq::empty(),
    }
}

/// The outcome of that transfer.
pub open spec fn outcome(transfer: Transfer, replies: Seq<u32>, i: int) -> Result<u32, SwdError>
    decreases transfer.left(),
{
    match transfer.next_of(replies[i]).0 {
        TransferStep::Op(op) => outcome(transfer.after(replies[i]), replies, i + 1),
        TransferStep::Done(result) => result,
    }
}

/// The events of `ops`, the `n`-th of which was answered by `replies[n + 1]`.
pub open spec fn clocked(ops: Seq<BusOp>, replies: Seq<u32>) -> Seq<WireEvent> {
    Seq::new(ops.len(), |n: int| WireEvent::Clocked(ops[n], replies[n + 1]))
}

/// What was done on the wire from `before` to `after` is `transfer`, and it gave
/// `result`: for some replies of the wire, `after` adds the operations of the transfer
/// under these replies, with the replies, and `result` is its outcome under them.
pub open spec fn carried_out(
    transfer: Transfer,
    before: Seq<WireEvent>,
    after: Seq<WireEvent>,
    result: Result<u32, SwdError>,
) -> bool {
    exists|replies: Seq<u32>|
        {
            &&& replies.len() == operations(transfer, replies, 0).len() + 1
            &&& after == before + clocked(operations(transfer, replies, 0), replies)
            &&& result == #[trigger] outcome(transfer, replies, 0)
        }
}

/// The SWCLK frequency, in kHz, for a maximum frequency in Hz: at least 1. `None`, a
/// refusal, for 0.
pub open spec fn swj_khz(max_frequency: u32) -> Option<u32> {
    if max_frequency == 0 {
        None
    } else if max_frequency < 1000 {
        Some(1)
    } else {
        Some((max_frequency / 1000) as u32)
    }
}

/// Owns the wire engine of one probe instance. Its view is what the engine has done on
/// the wire.
pub struct ProbeContext<B: SwdBus> {
    bus: B,
}

impl<B: SwdBus> View for ProbeContext<B> {
    type V = Seq<WireEvent>;

    closed spec fn view(&self) -> Seq<WireEvent> {
        self.bus.done()
    }
}

impl<B: SwdBus> ProbeContext<B> {
    /// A probe instance on this engine.
    pub fn new(bus: B) -> (r: ProbeContext<B>)
        ensures
            r@ == bus.done(),
    {
        ProbeContext { bus }
    }

    /// Perform one wire operation; the result is what a read gave.
    fn perform(&mut self, op: BusOp) -> (r: u32)
        requires
            op matches BusOp::Write { bit_count, .. } ==> bit_count >= 1,
            op matches BusOp::Read(bit_count) ==> bit_count >= 1,
        ensures
            final(self)@ == old(self)@.push(WireEvent::Clocked(op, r)),
            !(op is Read) ==> r == 0,
    {
        match op {
            BusOp::Write { bit_count, data } => {
                self.bus.write_bits(bit_count, data);
                0
            },
            BusOp::Read(bit_count) => self.bus.read_bits(bit_count),
            BusOp::HiZ(bit_count) => {
                self.bus.hiz_clocks(bit_count);
                0
            },
        }
    }

    /// Set SWCLK for a maximum frequency in Hz, to at least 1 kHz. Refused for 0.
    pub fn set_swj_clock(&mut self, max_frequency: u32) -> (r: bool)
        ensures
            r == (swj_khz(max_frequency) is Some),
            final(self)@ == match swj_khz(max_frequency) {
                Some(khz) => old(self)@.push(WireEvent::Frequency(khz)),
                None => old(self)@,
            },
    {
        if max_frequency == 0 {
            return false;
        }
        let mut khz: u32 = max_frequency / 1000;
        if khz < 1 {
            khz = 1;
        }
        self.bus.set_swclk_freq_khz(khz);
        true
    }

    /// Clock out the first `bits` bits of `data`, as far as it goes.
    pub fn process_swj_sequence(&mut self, data: &[u8], bits: usize)
        ensures
            final(self)@ == old(self)@ + writes(bits as int, data@),
    {
        let chunks = sequence_chunks(bits, data.len());
        proof {
            sequences_are_complete(bits as int, data@.len() as int);
        }
        let ghost before = self@;
        let mut i: usize = 0;
        while i < chunks.len()
            invariant
                i <= chunks@.len() <= data@.len(),
                chunks@ == Seq::new(
                    chunk_count(bits as int, data@.len() as int) as nat,
                    |i: int| chunk_bits(bits as int, i) as u32,
                ),
                forall|k: int| 0 <= k < chunks@.len() ==> #[trigger] chunks@[k] >= 1,
                self@ == before + writes(bits as int, data@).take(i as int),
            decreases chunks@.len() - i,
        {
            let op = BusOp::Write { bit_count: chunks[i], data: data[i] as u32 };
            let _ = self.perform(op);
            i = i + 1;
            assert(self@ =~= before + writes(bits as int, data@).take(i as int));
        }
        assert(writes(bits as int, data@).take(i as int) =~= writes(bits as int, data@));
    }

    /// Release SWDIO and the reset line; see [`released`].
    pub fn high_impedance_mode(&mut self)
        ensures
            final(self)@ == released(old(self)@),
    {
        self.bus.read_mode();
        self.set_nreset(false);
    }

    /// Drive (true) or release (false) the reset line.
    pub fn set_nreset(&mut self, asserted: bool)
        ensures
            final(self)@ == old(self)@.push(WireEvent::Reset(asserted)),
    {
        self.bus.set_nreset(asserted);
    }

    /// The level of the reset line, as the engine reads it now (true = high, released).
    pub fn nreset_level(&mut self) -> (r: bool)
        ensures
            final(self)@ == old(self)@.push(WireEvent::Level(r)),
    {
        self.bus.nreset_level()
    }

    /// Enter SWD mode: the probe drives SWDIO.
    pub fn into_swd(self) -> (r: ProbeSwd<B>)
        ensures
            r@ == self@.push(WireEvent::WriteMode),
    {
        let mut context = self;
        context.bus.write_mode();
        ProbeSwd { context }
    }
}

/// A probe instance in SWD mode. Its view is what the engine has done on the wire.
pub struct ProbeSwd<B: SwdBus> {
    context: ProbeContext<B>,
}

impl<B: SwdBus> View for ProbeSwd<B> {
    type V = Seq<WireEvent>;

    closed spec fn view(&self) -> Seq<WireEvent> {
        self.context@
    }
}

impl<B: SwdBus> ProbeSwd<B> {
    /// Leave SWD mode.
    pub fn into_context(self) -> (r: ProbeContext<B>)
        ensures
            r@ == self@,
    {
        self.context
    }

    /// Run a transfer to its end. What the wire answers decides the outcome.
    fn carry_out(&mut self, transfer: Transfer) -> (r: Result<u32, SwdError>)
        ensures
            carried_out(transfer, old(self)@, final(self)@, r),
    {
        let mut current: Transfer = transfer;
        let mut reply: u32 = 0;
        let ghost before = self@;
        let ghost mut taken: Seq<u32> = Seq::empty();
        let ghost mut done: Seq<BusOp> = Seq::empty();
        assert(self@ =~= before + clocked(done, taken.push(reply)));
        loop
            invariant
                done.len() == taken.len(),
                self@ == before + clocked(done, taken.push(reply)),
                before == old(self)@,
                forall|all: Seq<u32>|
                    all.len() >= taken.len() && all.take(taken.len() as int) == taken
                        ==> #[trigger] outcome(transfer, all, 0) == outcome(
                        current,
                        all,
                        taken.len() as int,
                    ) && operations(transfer, all, 0) == done + operations(
                        current,
                        all,
                        taken.len() as int,
                    ),
            decreases current.left(),
        {
            let ghost all = taken.push(reply);
            let ghost last = current;
            assert(all.take(taken.len() as int) =~= taken);
            match current.next(reply) {
                TransferStep::Done(result) => {
                    assert(outcome(transfer, all, 0) == result);
                    assert(operations(transfer, all, 0) =~= done);
                    return result;
                },
                TransferStep::Op(op) => {
                    proof {
                        assert forall|more: Seq<u32>|
                            more.len() >= all.len() && more.take(all.len() as int) == all implies
                            #[trigger] outcome(transfer, more, 0) == outcome(
                            current,
                            more,
                            all.len() as int,
                        ) && operations(transfer, more, 0) == done.push(op) + operations(
                            current,
                            more,
                            all.len() as int,
                        ) by {
                            assert(more.take(taken.len() as int) =~= taken) by {
                                assert(more.take(all.len() as int).take(taken.len() as int)
                                    =~= more.take(taken.len() as int));
                            }
                            assert(more[taken.len() as int] == more.take(
                                all.len() as int,
                            )[taken.len() as int]);
                            assert(done + operations(last, more, taken.len() as int) =~= done.push(
                                op,
                            ) + operations(current, more, all.len() as int));
                        }
                    }
                    let ghost earlier = self@;
                    reply = self.context.perform(op);
                    proof {
                        assert(before + clocked(done.push(op), all.push(reply)) =~= earlier.push(
                            WireEvent::Clocked(op, reply),
                        ));
                        taken = all;
                        done = done.push(op);
                    }
                },
            }
        }
    }

    /// Read register `a`.
    pub fn read_inner(&mut self, apndp: APnDP, a: DPRegister) -> (r: Result<u32, SwdError>)
        ensures
            carried_out(Transfer::fresh(apndp, a, None), old(self)@, final(self)@, r),
    {
        self.carry_out(Transfer::read(apndp, a))
    }

    /// Write `data` to register `a`.
    pub fn write_inner(&mut self, apndp: APnDP, a: DPRegister, data: u32) -> (r: Result<
        (),
        SwdError,
    >)
        ensures
            carried_out(
                Transfer::fresh(apndp, a, Some(data)),
                old(self)@,
                final(self)@,
                match r {
                    Ok(()) => Ok(0),
                    Err(e) => Err(e),
                },
            ),
    {
        let ghost before = self@;
        let r = self.carry_out(Transfer::write(apndp, a, data));
        proof {
            lemma_writes_give_nothing(Transfer::fresh(apndp, a, Some(data)), before, self@, r);
        }
        match r {
            Ok(_) => Ok(()),
            Err(e) => Err(e),
        }
    }

    /// Set SWCLK for a maximum frequency in Hz, to at least 1 kHz. Refused for 0.
    pub fn set_clock(&mut self, max_frequency: u32) -> (r: bool)
        ensures
            r == (swj_khz(max_frequency) is Some),
            final(self)@ == match swj_khz(max_frequency) {
                Some(khz) => old(self)@.push(WireEvent::Frequency(khz)),
                None => old(self)@,
            },
    {
        self.context.set_swj_clock(max_frequency)
    }

    /// Clock out `num_bits` bits of `data`. It cannot fail.
    pub fn write_sequence(&mut self, num_bits: usize, data: &[u8]) -> (r: Result<(), SwdError>)
        ensures
            r is Ok,
            final(self)@ == old(self)@ + writes(num_bits as int, data@),
    {
        self.context.process_swj_sequence(data, num_bits);
        Ok(())
    }

    /// Clock in `num_bits` bits, with room for `bytes` bytes. The result holds the
    /// bytes that were clocked in.
    pub fn read_sequence(&mut self, num_bits: usize, bytes: usize) -> (r: Vec<u8>)
        ensures
            exists|replies: Seq<u32>|
                {
                    &&& replies.len() == chunk_count(num_bits as int, bytes as int)
                    &&& final(self)@ == old(self)@ + #[trigger] reads(num_bits as int, replies)
                    &&& r@ == low_bytes(replies)
                },
    {
        let chunks = sequence_chunks(num_bits, bytes);
        proof {
            sequences_are_complete(num_bits as int, bytes as int);
        }
        let ghost before = self@;
        let mut replies: Vec<u32> = Vec::new();
        let mut i: usize = 0;
        assert(self@ =~= before + reads(num_bits as int, replies@));
        while i < chunks.len()
            invariant
                i <= chunks@.len(),
                replies@.len() == i,
                chunks@ == Seq::new(
                    chunk_count(num_bits as int, bytes as int) as nat,
                    |i: int| chunk_bits(num_bits as int, i) as u32,
                ),
                forall|k: int| 0 <= k < chunks@.len() ==> #[trigger] chunks@[k] >= 1,
                self@ == before + reads(num_bits as int, replies@),
            decreases chunks@.len() - i,
        {
            let reply: u32 = self.context.perform(BusOp::Read(chunks[i]));
            replies.push(reply);
            i = i + 1;
            assert(self@ =~= before + reads(num_bits as int, replies@));
        }
        assert(self@ == before + reads(num_bits as int, replies@));
        sequence_bytes(replies.as_slice())
    }
}

/// The outcome of a write that succeeds is 0.
proof fn lemma_writes_give_nothing(
    transfer: Transfer,
    before: Seq<WireEvent>,
    after: Seq<WireEvent>,
    result: Result<u32, SwdError>,
)
    requires
        transfer.data is Some,
        transfer.phase is Begin,
        carried_out(transfer, before, after, result),
    ensures
        result matches Ok(value) ==> value == 0,
{
    reveal_with_fuel(outcome, 8);
}

/// A read that is acknowledged clocks out the request, clocks in the
/// acknowledgement, the value and its parity bit, turns the line around and parks
/// it; it gives the value exactly when the parity bit is right.
pub proof fn acknowledged_reads(apndp: APnDP, a: DPRegister, replies: Seq<u32>)
    requires
        Transfer::ack_of(replies[2]) is Ok,
    ensures
        operations(Transfer::fresh(apndp, a, None), replies, 0) == seq![
            BusOp::Write { bit_count: 8, data: request_byte(apndp, RnW::R, a) as u32 },
            BusOp::Read(4),
            BusOp::Read(32),
            BusOp::Read(1),
            BusOp::HiZ(1),
            BusOp::Write { bit_count: 8, data: 0 },
        ],
        outcome(Transfer::fresh(apndp, a, None), replies, 0) == read_outcome(
            replies[3],
            replies[4],
        ),
{
    reveal_with_fuel(operations, 8);
    reveal_with_fuel(outcome, 8);
}

/// A write that is acknowledged turns the line around, clocks out the data and its
/// parity bit, and parks the line; it succeeds.
pub proof fn acknowledged_writes(apndp: APnDP, a: DPRegister, data: u32, replies: Seq<u32>)
    requires
        Transfer::ack_of(replies[2]) is Ok,
    ensures
        operations(Transfer::fresh(apndp, a, Some(data)), replies, 0) == seq![
            BusOp::Write { bit_count: 8, data: request_byte(apndp, RnW::W, a) as u32 },
            BusOp::Read(4),
            BusOp::HiZ(1),
            BusOp::Write { bit_count: 32, data },
            BusOp::Write { bit_count: 1, data: parity_of(data) as u32 },
            BusOp::Write { bit_count: 8, data: 0 },
        ],
        outcome(Transfer::fresh(apndp, a, Some(data)), replies, 0) is Ok,
{
    reveal_with_fuel(operations, 8);
    reveal_with_fuel(outcome, 8);
}

/// A transfer that is not acknowledged moves no data and is not parked. After WAIT
/// and FAULT the line is turned around; after anything else a full data phase is
/// backed off. The error is that of the acknowledgement.
pub proof fn refused_transfers(
    apndp: APnDP,
    a: DPRegister,
    data: Option<u32>,
    replies: Seq<u32>,
    e: SwdError,
)
    requires
        Transfer::ack_of(replies[2]) == Err::<(), SwdError>(e),
    ensures
        operations(Transfer::fresh(apndp, a, data), replies, 0) == seq![
            BusOp::Write { bit_count: 8, data: Transfer::fresh(apndp, a, data).request as u32 },
            BusOp::Read(4),
        ] + if e is AckWait || e is AckFault {
            seq![BusOp::HiZ(1)]
        } else {
            seq![BusOp::Read(33), BusOp::Read(1)]
        },
        outcome(Transfer::fresh(apndp, a, data), replies, 0) == Err::<u32, SwdError>(e),
{
    reveal_with_fuel(operations, 6);
    reveal_with_fuel(outcome, 6);
}

/// `x` with bit `k` flipped.
spec fn flip(x: nat, k: nat) -> nat
    decreases k,
{
    if k == 0 {
        if x % 2 == 0 {
            x + 1
        } else {
            (x - 1) as nat
        }
    } else {
        2 * flip(x / 2, (k - 1) as nat) + x % 2
    }
}

/// Flipping one bit changes the parity.
proof fn lemma_flip_parity(x: nat, k: nat)
    ensures
        ones(flip(x, k)) % 2 != ones(x) % 2,
    decreases k,
{
    reveal_with_fuel(ones, 2);
    if k > 0 {
        lemma_flip_parity(x / 2, (k - 1) as nat);
        let f = flip(x / 2, (k - 1) as nat);
        assert(flip(x, k) / 2 == f);
        assert(flip(x, k) % 2 == x % 2);
    }
}

/// An exclusive or with one bit flips that bit.
proof fn lemma_xor_is_flip(x: u32, k: u32)
    requires
        k < 32,
    ensures
        x ^ (1u32 << k) == flip(x as nat, k as nat),
    decreases k,
{
    if k == 0 {
        assert(x % 2 == 0 ==> x ^ (1u32 << 0u32) == x + 1) by (bit_vector);
        assert(x % 2 == 1 ==> x ^ (1u32 << 0u32) == x - 1) by (bit_vector);
    } else {
        let half: u32 = x / 2;
        let less: u32 = (k - 1) as u32;
        lemma_xor_is_flip(half, less);
        assert(1 <= k < 32 && half == x / 2 && less == k - 1 ==> x ^ (1u32 << k) == 2 * (half ^ (
        1u32 << less)) + x % 2) by (bit_vector);
    }
}

/// Whatever one bit of a value is wrong, the parity bit that was sent with it shows it.
pub proof fn single_bit_errors_are_noticed(val: u32, bit: u32)
    requires
        bit < 32,
    ensures
        read_outcome(val ^ (1u32 << bit), parity_of(val) as u32) == Err::<u32, SwdError>(
            SwdError::BadParity,
        ),
        read_outcome(val, parity_of(val) as u32) == Ok::<u32, SwdError>(val),
{
    lemma_xor_is_flip(val, bit);
    lemma_flip_parity(val as nat, bit as nat);
}

/// How many bytes a sequence of `num_bits` bits takes of `bytes` bytes.
pub open spec fn chunk_count(num_bits: int, bytes: int) -> int {
    if (num_bits + 7) / 8 < bytes {
        (num_bits + 7) / 8
    } else {
        bytes
    }
}

/// How many bits of byte `i` a sequence of `num_bits` bits takes.
pub open spec fn chunk_bits(num_bits: int, i: int) -> int {
    if num_bits - 8 * i < 8 {
        num_bits - 8 * i
    } else {
        8
    }
}

/// Clocking out the first `num_bits` bits of `data`, LSB first, a byte at a time.
pub open spec fn writes(num_bits: int, data: Seq<u8>) -> Seq<WireEvent> {
    Seq::new(
        chunk_count(num_bits, data.len() as int) as nat,
        |i: int|
            WireEvent::Clocked(
                BusOp::Write { bit_count: chunk_bits(num_bits, i) as u32, data: data[i] as u32 },
                0,
            ),
    )
}

/// Clocking in the bits of `num_bits` bits, a byte at a time, answered by `replies`.
pub open spec fn reads(num_bits: int, replies: Seq<u32>) -> Seq<WireEvent> {
    Seq::new(
        replies.len(),
        |i: int| WireEvent::Clocked(BusOp::Read(chunk_bits(num_bits, i) as u32), replies[i]),
    )
}

/// The low byte of each reply.
pub open spec fn low_bytes(replies: Seq<u32>) -> Seq<u8> {
    Seq::new(replies.len(), |i: int| (replies[i] % 256) as u8)
}

/// How many bits to clock for each byte of a sequence of `num_bits` bits, with
/// room for `bytes` bytes.
pub fn sequence_chunks(num_bits: usize, bytes: usize) -> (r: Vec<u32>)
    ensures
        r@ == Seq::new(
            chunk_count(num_bits as int, bytes as int) as nat,
            |i: int| chunk_bits(num_bits as int, i) as u32,
        ),
{
    let mut left: usize = num_bits;
    let mut out: Vec<u32> = Vec::new();
    let mut i: usize = 0;
    while i < bytes && left > 0
        invariant
            i <= bytes,
            i <= chunk_count(num_bits as int, bytes as int),
            left == if num_bits < 8 * i {
                0
            } else {
                num_bits - 8 * i
            },
            out@ == Seq::new(i as nat, |i: int| chunk_bits(num_bits as int, i) as u32),
        decreases bytes - i,
    {
        let chunk: usize = if left < 8 {
            left
        } else {
            8
        };
        out.push(chunk as u32);
        left = left - chunk;
        i = i + 1;
        assert(out@ =~= Seq::new(i as nat, |i: int| chunk_bits(num_bits as int, i) as u32));
    }
    out
}

/// The bytes of a sequence, given what the wire answered for each.
pub fn sequence_bytes(replies: &[u32]) -> (r: Vec<u8>)
    ensures
        r@ == low_bytes(replies@),
{
    let mut out: Vec<u8> = Vec::new();
    let mut i: usize = 0;
    while i < replies.len()
        invariant
            i <= replies@.len(),
            out@ == Seq::new(i as nat, |i: int| (replies@[i] % 256) as u8),
        decreases replies@.len() - i,
    {
        let reply: u32 = replies[i];
        assert(reply as u8 == (reply % 256) as u8) by (bit_vector);
        out.push(#[verifier::truncate] (reply as u8));
        i = i + 1;
        assert(out@ =~= Seq::new(i as nat, |i: int| (replies@[i] % 256) as u8));
    }
    out
}

/// The bits of the first `n` chunks.
pub open spec fn bits_of_chunks(num_bits: int, n: int) -> int
    decreases n,
{
    if n <= 0 {
        0
    } else {
        bits_of_chunks(num_bits, n - 1) + chunk_bits(num_bits, n - 1)
    }
}

proof fn lemma_bits_of_chunks(num_bits: int, n: int)
    requires
        num_bits >= 0,
        0 <= n <= (num_bits + 7) / 8,
    ensures
        bits_of_chunks(num_bits, n) == if num_bits < 8 * n {
            num_bits
        } else {
            8 * n
        },
    decreases n,
{
    if n > 0 {
        lemma_bits_of_chunks(num_bits, n - 1);
    }
}

/// A sequence clocks exactly the bits that were asked for, as far as there is room
/// for them, and no operation of it is empty or longer than a byte.
pub proof fn sequences_are_complete(num_bits: int, bytes: int)
    requires
        num_bits >= 0,
        bytes >= 0,
    ensures
        bits_of_chunks(num_bits, chunk_count(num_bits, bytes)) == if num_bits < 8 * bytes {
            num_bits
        } else {
            8 * bytes
        },
        forall|i: int|
            0 <= i < chunk_count(num_bits, bytes) ==> 1 <= #[trigger] chunk_bits(num_bits, i) <= 8,
{
    lemma_bits_of_chunks(num_bits, chunk_count(num_bits, bytes));
}

/// What to do about a request to drive the SWJ pins.
#[derive(Debug, Clone, Copy, PartialEq, Eq)]
pub struct SwjPins {
    /// Assert (true) or release (false) the reset line.
    pub nreset: Option<bool>,
    /// Then wait until the reset line has this level, at most this many microseconds.
    pub wait: Option<(bool, u32)>,
}

/// Whether the reset line is among `pins`: it is the highest bit.
pub open spec fn has_nreset(pins: u8) -> bool {
    pins >= 128
}

/// Whether the reset line is among `pins`.
fn contains_nreset(pins: u8) -> (r: bool)
    ensures
        r == has_nreset(pins),
{
    assert((pins & 0x80 == 0x80) == (pins >= 128)) by (bit_vector);
    pins & NRESET == NRESET
}

/// What a request to set the pins of `mask` to their level in `output` asks for.
pub open spec fn swj_request(output: u8, mask: u8, wait_us: u32) -> SwjPins {
    SwjPins {
        nreset: if has_nreset(mask) {
            Some(!has_nreset(output))
        } else {
            None
        },
        wait: if has_nreset(mask) && wait_us > 0 {
            Some((has_nreset(output), wait_us))
        } else {
            None
        },
    }
}

/// What to do about a request to set the pins of `mask` to their level in `output`.
/// The clock and data lines belong to the state machine and cannot be driven one by
/// one; only the reset line can (open drain: high is released).
pub fn process_swj_pins(output: u8, mask: u8, wait_us: u32) -> (r: SwjPins)
    ensures
        r == swj_request(output, mask, wait_us),
{
    if !contains_nreset(mask) {
        return SwjPins { nreset: None, wait: None };
    }
    let level: bool = contains_nreset(output);
    SwjPins {
        nreset: Some(!level),
        wait: if wait_us > 0 {
            Some((level, wait_us))
        } else {
            None
        },
    }
}

/// The reset line does not have the `wanted` level, and the time is not up.
pub open spec fn still_waiting(
    wanted: bool,
    level: bool,
    now_us: u64,
    deadline_us: u64,
) -> bool {
    level != wanted && now_us < deadline_us
}

/// Whether to go on waiting for the reset line to have the `wanted` level: it has the
/// other one, and the time is not up.
pub fn keep_waiting(wanted: bool, level: bool, now_us: u64, deadline_us: u64) -> (r: bool)
    ensures
        r == still_waiting(wanted, level, now_us, deadline_us),
{
    level != wanted && now_us < deadline_us
}

/// The pins to report, given the level of the reset line.
pub open spec fn swj_state(nreset_level: bool) -> u8 {
    if nreset_level {
        0x80
    } else {
        0
    }
}

/// The pins to report, given the level of the reset line.
pub fn swj_pins_state(nreset_level: bool) -> (r: u8)
    ensures
        r == swj_state(nreset_level),
{
    if nreset_level {
        NRESET
    } else {
        0
    }
}

/// A request byte starts with a 1 and ends with a 0 and a 1. Between them stand the port
/// (1 for an access port), the direction (1 for a read), the register's number, low
/// bit first, and a bit that makes the number of ones of these even.
pub proof fn requests_are_framed(apndp: APnDP, rnw: RnW, a: DPRegister)
    ensures
        ({
            let byte = request_byte(apndp, rnw, a);
            let register: int = match a {
                DPRegister::DPIDR => 0,
                DPRegister::CTRLSTAT => 1,
                DPRegister::SELECT => 2,
                DPRegister::RDBUFF => 3,
            };
            &&& byte % 2 == 1
            &&& (byte / 2) % 2 == 1 <==> apndp == APnDP::AP
            &&& (byte / 4) % 2 == 1 <==> rnw == RnW::R
            &&& (byte / 8) % 4 == register
            &&& ((byte / 2) % 2 + (byte / 4) % 2 + (byte / 8) % 2 + (byte / 16) % 2 + (byte / 32)
                % 2) % 2 == 0
            &&& byte / 64 == 2
        }),
{
}

/// The acknowledgement is the three bits after the turnaround, whatever the turnaround
/// bit was: the replies 2k and 2k + 1 mean the same. Of the sixteen replies 2 and 3 are
/// OK, 4 and 5 WAIT, 8 and 9 FAULT, 14 and 15 a line that nobody drives, and the others
/// are no acknowledgement.
pub proof fn turnaround_bits_do_not_matter(reply: u32)
    requires
        reply < 16,
    ensures
        reply % 2 == 0 ==> Transfer::ack_of(reply) == Transfer::ack_of((reply + 1) as u32),
        Transfer::ack_of(reply) == Ok::<(), SwdError>(()) <==> reply == 2 || reply == 3,
        Transfer::ack_of(reply) == Err::<(), SwdError>(SwdError::AckWait) <==> reply == 4 || reply
            == 5,
        Transfer::ack_of(reply) == Err::<(), SwdError>(SwdError::AckFault) <==> reply == 8 || reply
            == 9,
        Transfer::ack_of(reply) == Err::<(), SwdError>(SwdError::AckProtocol) <==> reply == 14
            || reply == 15,
        Transfer::ack_of(reply) matches Err(SwdError::AckUnknown(ack)) ==> 2 * ack <= reply <= 2
            * ack + 1,
        !(Transfer::ack_of(reply) matches Err(SwdError::BadParity)),
{
}

/// A word of zeros has the parity bit 0, and the parity bit tells whether the number of
/// ones is odd. A read gives its value exactly when value and parity bit together have
/// an even number of ones.
pub proof fn parity_makes_ones_even(val: u32, parity: u32)
    ensures
        parity_of(0) == 0,
        parity_of(val) <= 1,
        (ones(val as nat) + parity_of(val)) % 2 == 0,
        (ones(val as nat) + parity) % 2 == 0 ==> read_outcome(val, parity) == Ok::<u32, SwdError>(
            val,
        ),
        (ones(val as nat) + parity) % 2 == 1 ==> read_outcome(val, parity) == Err::<u32, SwdError>(
            SwdError::BadParity,
        ),
{
}

/// Something was clocked, and this is what it gave.
pub open spec fn clocked_at(events: Seq<WireEvent>, n: int, op: BusOp, reply: u32) -> bool {
    0 <= n < events.len() && events[n] == WireEvent::Clocked(op, reply)
}

/// Something was clocked, whatever it gave.
pub open spec fn ran_at(events: Seq<WireEvent>, n: int, op: BusOp) -> bool {
    0 <= n < events.len() && (events[n] matches WireEvent::Clocked(ran, _) && ran == op)
}

/// What a register read does on the wire, told by what was done and what the wire
/// answered. The request byte is clocked out, and four bits are clocked in. If they are
/// 2 or 3, 32 bits and 1 bit are clocked in, the line is turned around and eight zeros
/// are clocked out; the result is the 32 bits, if they and the one bit have an even
/// number of ones, and else a parity error. If they are 4 or 5, or 8 or 9, the line is
/// turned around, and the result is WAIT or FAULT. After anything else 33 bits and 1
/// bit are clocked in and dropped, and the result is an error.
pub proof fn reads_follow_the_wire(
    apndp: APnDP,
    a: DPRegister,
    before: Seq<WireEvent>,
    after: Seq<WireEvent>,
    result: Result<u32, SwdError>,
    ack: u32,
    val: u32,
    parity: u32,
)
    requires
        carried_out(Transfer::fresh(apndp, a, None), before, after, result),
        clocked_at(after, before.len() as int + 1, BusOp::Read(4), ack),
        ack < 16,
        (ack == 2 || ack == 3) ==> clocked_at(after, before.len() as int + 2, BusOp::Read(32), val)
            && clocked_at(after, before.len() as int + 3, BusOp::Read(1), parity),
    ensures
        before.is_prefix_of(after),
        ran_at(after, before.len() as int, BusOp::Write {
            bit_count: 8,
            data: request_byte(apndp, RnW::R, a) as u32,
        }),
        ack == 2 || ack == 3 ==> {
            &&& after.len() == before.len() + 6
            &&& ran_at(after, before.len() as int + 4, BusOp::HiZ(1))
            &&& ran_at(after, before.len() as int + 5, BusOp::Write {
                bit_count: 8,
                data: 0,
            })
            &&& result == if (ones(val as nat) + parity) % 2 == 0 {
                Ok::<u32, SwdError>(val)
            } else {
                Err(SwdError::BadParity)
            }
        },
        ack == 4 || ack == 5 || ack == 8 || ack == 9 ==> {
            &&& after.len() == before.len() + 3
            &&& ran_at(after, before.len() as int + 2, BusOp::HiZ(1))
            &&& result == if ack <= 5 {
                Err::<u32, SwdError>(SwdError::AckWait)
            } else {
                Err(SwdError::AckFault)
            }
        },
        ack < 2 || 6 <= ack <= 7 || ack >= 10 ==> {
            &&& after.len() == before.len() + 4
            &&& ran_at(after, before.len() as int + 2, BusOp::Read(33))
            &&& ran_at(after, before.len() as int + 3, BusOp::Read(1))
            &&& result == if ack >= 14 {
                Err::<u32, SwdError>(SwdError::AckProtocol)
            } else {
                Err(SwdError::AckUnknown((ack / 2) as u8))
            }
        },
{
    let transfer = Transfer::fresh(apndp, a, None);
    let replies = choose|replies: Seq<u32>|
        {
            &&& replies.len() == operations(transfer, replies, 0).len() + 1
            &&& after == before + clocked(operations(transfer, replies, 0), replies)
            &&& result == #[trigger] outcome(transfer, replies, 0)
        };
    let ops = operations(transfer, replies, 0);
    reveal_with_fuel(operations, 8);
    reveal_with_fuel(outcome, 8);
    let events = clocked(ops, replies);
    assert(forall|n: int| 0 <= n < events.len() ==> #[trigger] after[before.len() as int + n] == events[n]);
    assert(after[before.len() as int + 1] == events[1]);
    assert(replies[2] == ack);
    assert(after[before.len() as int + 0] == events[0]);
    assert(forall|n: int| 0 <= n < before.len() ==> after[n] == before[n]);
    turnaround_bits_do_not_matter(ack);
    if Transfer::ack_of(replies[2]) is Ok {
        acknowledged_reads(apndp, a, replies);
        assert(after[before.len() as int + 2] == events[2]);
        assert(after[before.len() as int + 3] == events[3]);
        assert(replies[3] == val && replies[4] == parity);
        parity_makes_ones_even(val, parity);
        assert(after[before.len() as int + 4] == events[4]);
        assert(after[before.len() as int + 5] == events[5]);
    } else {
        refused_transfers(apndp, a, None, replies, Transfer::ack_of(replies[2])->Err_0);
        assert(after[before.len() as int + 2] == events[2]);
        if events.len() > 3 {
            assert(after[before.len() as int + 3] == events[3]);
        }
    }
}

/// What a register write does on the wire, told by what was done and what the wire
/// answered. The request byte is clocked out, and four bits are clocked in. If they are
/// 2 or 3, the line is turned around, and the data, its parity bit and eight zeros are
/// clocked out; the write succeeds. Else no data goes out, and the result is the error
/// of a read with that answer.
pub proof fn writes_follow_the_wire(
    apndp: APnDP,
    a: DPRegister,
    data: u32,
    before: Seq<WireEvent>,
    after: Seq<WireEvent>,
    result: Result<u32, SwdError>,
    ack: u32,
)
    requires
        carried_out(Transfer::fresh(apndp, a, Some(data)), before, after, result),
        clocked_at(after, before.len() as int + 1, BusOp::Read(4), ack),
        ack < 16,
    ensures
        before.is_prefix_of(after),
        ran_at(after, before.len() as int, BusOp::Write {
            bit_count: 8,
            data: request_byte(apndp, RnW::W, a) as u32,
        }),
        ack == 2 || ack == 3 ==> {
            &&& after.len() == before.len() + 6
            &&& ran_at(after, before.len() as int + 2, BusOp::HiZ(1))
            &&& ran_at(after, before.len() as int + 3, BusOp::Write {
                bit_count: 32,
                data,
            })
            &&& ran_at(after, before.len() as int + 4, BusOp::Write {
                bit_count: 1,
                data: (ones(data as nat) % 2) as u32,
            })
            &&& ran_at(after, before.len() as int + 5, BusOp::Write {
                bit_count: 8,
                data: 0,
            })
            &&& result is Ok
        },
        ack == 4 || ack == 5 || ack == 8 || ack == 9 ==> {
            &&& after.len() == before.len() + 3
            &&& ran_at(after, before.len() as int + 2, BusOp::HiZ(1))
            &&& result == if ack <= 5 {
                Err::<u32, SwdError>(SwdError::AckWait)
            } else {
                Err(SwdError::AckFault)
            }
        },
        ack < 2 || 6 <= ack <= 7 || ack >= 10 ==> {
            &&& after.len() == before.len() + 4
            &&& ran_at(after, before.len() as int + 2, BusOp::Read(33))
            &&& ran_at(after, before.len() as int + 3, BusOp::Read(1))
            &&& result == if ack >= 14 {
                Err::<u32, SwdError>(SwdError::AckProtocol)
            } else {
                Err(SwdError::AckUnknown((ack / 2) as u8))
            }
        },
{
    let transfer = Transfer::fresh(apndp, a, Some(data));
    let replies = choose|replies: Seq<u32>|
        {
            &&& replies.len() == operations(transfer, replies, 0).len() + 1
            &&& after == before + clocked(operations(transfer, replies, 0), replies)
            &&& result == #[trigger] outcome(transfer, replies, 0)
        };
    let ops = operations(transfer, replies, 0);
    reveal_with_fuel(operations, 8);
    let events = clocked(ops, replies);
    assert(after[before.len() as int + 1] == events[1]);
    assert(replies[2] == ack);
    assert(after[before.len() as int + 0] == events[0]);
    assert(forall|n: int| 0 <= n < before.len() ==> after[n] == before[n]);
    turnaround_bits_do_not_matter(ack);
    assert(after[before.len() as int + 2] == events[2]);
    if Transfer::ack_of(replies[2]) is Ok {
        acknowledged_writes(apndp, a, data, replies);
        assert(after[before.len() as int + 3] == events[3]);
        assert(after[before.len() as int + 4] == events[4]);
        assert(after[before.len() as int + 5] == events[5]);
    } else {
        refused_transfers(apndp, a, Some(data), replies, Transfer::ack_of(replies[2])->Err_0);
        if events.len() > 3 {
            assert(after[before.len() as int + 3] == events[3]);
        }
    }
}

/// Every transfer asks for the acknowledgement with its second operation.
pub proof fn transfers_ask_for_the_acknowledgement(
    apndp: APnDP,
    a: DPRegister,
    data: Option<u32>,
    before: Seq<WireEvent>,
    after: Seq<WireEvent>,
    result: Result<u32, SwdError>,
)
    requires
        carried_out(Transfer::fresh(apndp, a, data), before, after, result),
    ensures
        after.len() >= before.len() + 3,
        ran_at(after, before.len() as int + 1, BusOp::Read(4)),
{
    let transfer = Transfer::fresh(apndp, a, data);
    let replies = choose|replies: Seq<u32>|
        {
            &&& replies.len() == operations(transfer, replies, 0).len() + 1
            &&& after == before + clocked(operations(transfer, replies, 0), replies)
            &&& result == #[trigger] outcome(transfer, replies, 0)
        };
    reveal_with_fuel(operations, 4);
    let events = clocked(operations(transfer, replies, 0), replies);
    assert(after[before.len() as int + 1] == events[1]);
}

/// A sequence that is written clocks out every bit that was asked for and that `data`
/// has, and no other: bit `k` goes out with byte `k / 8` of the data, in order; the
/// bytes before the last go out whole, and nothing goes out twice.
pub proof fn written_sequences_go_out_bit_by_bit(num_bits: int, data: Seq<u8>, k: int)
    requires
        0 <= k < num_bits,
        k < 8 * data.len(),
    ensures
        ({
            let events = writes(num_bits, data);
            &&& k / 8 < events.len() <= data.len()
            &&& events[k / 8] matches WireEvent::Clocked(BusOp::Write { bit_count, data: out }, 0)
                && k % 8 < bit_count <= 8 && out == data[k / 8] && 8 * (k / 8) + bit_count
                <= num_bits
            &&& 8 * events.len() < num_bits + 8
        }),
{
}

/// A sequence that is read clocks in the bits in the same way, and its bytes are the low
/// bytes of what the wire answered, one for each operation.
pub proof fn read_sequences_come_in_bit_by_bit(num_bits: int, bytes: int, replies: Seq<u32>, k: int)
    requires
        0 <= k < num_bits,
        k < 8 * bytes,
        replies.len() == chunk_count(num_bits, bytes),
    ensures
        ({
            let events = reads(num_bits, replies);
            &&& k / 8 < events.len() <= bytes
            &&& events.len() == replies.len() == low_bytes(replies).len()
            &&& events[k / 8] matches WireEvent::Clocked(BusOp::Read(bit_count), reply) && k % 8
                < bit_count <= 8 && 8 * (k / 8) + bit_count <= num_bits && reply == replies[k / 8]
                && low_bytes(replies)[k / 8] == reply % 256
            &&& 8 * events.len() < num_bits + 8
        }),
{
}

/// Where there is nothing to clock, nothing is clocked.
pub proof fn empty_sequences_clock_nothing(num_bits: int, data: Seq<u8>)
    requires
        num_bits == 0 || data.len() == 0,
        num_bits >= 0,
    ensures
        writes(num_bits, data).len() == 0,
        chunk_count(num_bits, data.len() as int) == 0,
{
}

/// The SWCLK frequency is the one that was asked for, in whole kHz rounded down, but at
/// least 1 kHz; only 0 is refused.
pub proof fn clock_requests_round_down(max_frequency: u32)
    ensures
        swj_khz(max_frequency) is None <==> max_frequency == 0,
        swj_khz(max_frequency) matches Some(khz) ==> khz >= 1 && max_frequency < 1000 * (khz + 1)
            && (1000 * khz <= max_frequency || khz == 1),
{
}

/// The reset line is touched exactly when bit 7 of the mask is set: it is asserted when
/// bit 7 of the output is clear. The wait, if there is a time for it, is for the level
/// in the output, and for that time. No other bit of mask or output matters, and bit 7
/// is what is reported of the line.
pub proof fn only_the_reset_line_is_driven(output: u8, mask: u8, wait_us: u32, level: bool)
    ensures
        ({
            let pins = swj_request(output, mask, wait_us);
            &&& mask < 128 ==> pins.nreset is None && pins.wait is None
            &&& mask >= 128 && output >= 128 ==> pins.nreset == Some(false)
            &&& mask >= 128 && output < 128 ==> pins.nreset == Some(true)
            &&& mask >= 128 && wait_us == 0 ==> pins.wait is None
            &&& mask >= 128 && wait_us > 0 ==> pins.wait == Some((output >= 128, wait_us))
        }),
        swj_state(level) >= 128 <==> level,
        swj_state(level) % 128 == 0,
{
}

/// Waiting ends when the line has the level, and when the time is up, and not before.
pub proof fn waits_end(wanted: bool, level: bool, now_us: u64, deadline_us: u64)
    ensures
        level == wanted ==> !still_waiting(wanted, level, now_us, deadline_us),
        now_us >= deadline_us ==> !still_waiting(wanted, level, now_us, deadline_us),
        level != wanted && now_us < deadline_us ==> still_waiting(
            wanted,
            level,
            now_us,
            deadline_us,
        ),
{
}

/// What was done on the wire once SWDIO and the reset line were released.
pub open spec fn released(before: Seq<WireEvent>) -> Seq<WireEvent> {
    before.push(WireEvent::ReadMode).push(WireEvent::Reset(false))
}

/// Releasing the lines turns SWDIO round and lets the reset line go, and does nothing else.
pub proof fn released_lines_are_not_driven(before: Seq<WireEvent>)
    ensures
        released(before).len() == before.len() + 2,
        released(before).take(before.len() as int) == before,
        released(before)[before.len() as int] == WireEvent::ReadMode,
        released(before).last() == WireEvent::Reset(false),
{
}

} // verus!
