//! SWD wire words, transfers and sequences.

use rustprobe::dap::{
    check_parity, keep_waiting, parity_bit, process_swj_pins, sequence_bytes, sequence_chunks, swj_pins_state,
    APnDP, DPRegister, ProbeContext, ProbeSwd, SwdError, Transfer, TransferStep,
};
use rustprobe::swd::{
    bits_read, fmt_command, BusOp, CmdAddrs, ResetDrive, SwdBus, SwdEngine, WireEvent,
};

/// A wire that records what is done to it, and answers reads from a list.
struct Wire {
    log: Vec<WireEvent>,
    answers: Vec<u32>,
}

impl Wire {
    fn new(answers: &[u32]) -> Wire {
        Wire { log: Vec::new(), answers: answers.iter().rev().copied().collect() }
    }

    /// The operations that were clocked.
    fn ops(&self) -> Vec<BusOp> {
        let mut ops = Vec::new();
        for event in &self.log {
            if let WireEvent::Clocked(op, _) = event {
                ops.push(*op);
            }
        }
        ops
    }
}

/// The engine on a wire.
struct Engine<'a>(&'a mut Wire);

impl SwdBus for Engine<'_> {
    fn set_swclk_freq_khz(&mut self, freq_khz: u32) {
        self.0.log.push(WireEvent::Frequency(freq_khz));
    }

    fn write_bits(&mut self, bit_count: u32, data: u32) {
        self.0.log.push(WireEvent::Clocked(BusOp::Write { bit_count, data }, 0));
    }

    fn read_bits(&mut self, bit_count: u32) -> u32 {
        let answer = self.0.answers.pop().unwrap_or(0);
        self.0.log.push(WireEvent::Clocked(BusOp::Read(bit_count), answer));
        answer
    }

    fn hiz_clocks(&mut self, bit_count: u32) {
        self.0.log.push(WireEvent::Clocked(BusOp::HiZ(bit_count), 0));
    }

    fn read_mode(&mut self) {
        self.0.log.push(WireEvent::ReadMode);
    }

    fn write_mode(&mut self) {
        self.0.log.push(WireEvent::WriteMode);
    }

    fn set_nreset(&mut self, asserted: bool) {
        self.0.log.push(WireEvent::Reset(asserted));
    }

    fn nreset_level(&mut self) -> bool {
        let level = !self.0.log.contains(&WireEvent::Reset(true));
        self.0.log.push(WireEvent::Level(level));
        level
    }
}

/// A probe in SWD mode on a wire.
fn probe(wire: &mut Wire) -> ProbeSwd<Engine<'_>> {
    ProbeContext::new(Engine(wire)).into_swd()
}

const OFFSETS: CmdAddrs = CmdAddrs { write: 0, skip: 3, turnaround: 0, read: 8 };

fn write(bit_count: u32, data: u32) -> BusOp {
    BusOp::Write { bit_count, data }
}

#[test]
fn an_acknowledged_read() {
    // DPIDR read: request 0xA5. The acknowledgement follows one turnaround bit. The
    // value has fourteen ones.
    let mut wire = Wire::new(&[0b0010, 0x0BC1_2477, 0]);
    let r = probe(&mut wire).read_inner(APnDP::DP, DPRegister::DPIDR);
    assert_eq!(r, Ok(0x0BC1_2477));
    assert_eq!(
        wire.ops(),
        [
            write(8, 0xA5),
            BusOp::Read(4),
            BusOp::Read(32),
            BusOp::Read(1),
            BusOp::HiZ(1),
            write(8, 0),
        ]
    );
}

#[test]
fn a_read_with_bad_parity() {
    let mut wire = Wire::new(&[0b0010, 0x0BC1_2477, 1]);
    let r = probe(&mut wire).read_inner(APnDP::DP, DPRegister::DPIDR);
    assert_eq!(r, Err(SwdError::BadParity));
    // The line is parked all the same.
    assert_eq!(wire.ops().len(), 6);
    assert_eq!(wire.ops()[5], write(8, 0));
}

#[test]
fn an_acknowledged_write() {
    let mut wire = Wire::new(&[0b0010]);
    let r = probe(&mut wire).write_inner(APnDP::DP, DPRegister::SELECT, 0x0000_0007);
    assert_eq!(r, Ok(()));
    assert_eq!(
        wire.ops(),
        [
            write(8, 0xB1),
            BusOp::Read(4),
            BusOp::HiZ(1),
            write(32, 7),
            write(1, 1),
            write(8, 0),
        ]
    );
}

#[test]
fn refused_transfers_recover_the_line() {
    let cases = [
        (0b0100, SwdError::AckWait),
        (0b1000, SwdError::AckFault),
        (0b1110, SwdError::AckProtocol),
        (0b0000, SwdError::AckUnknown(0)),
        (0b0110, SwdError::AckUnknown(3)),
        (0b1010, SwdError::AckUnknown(5)),
        (0b1100, SwdError::AckUnknown(6)),
    ];
    for (ack, error) in cases {
        let recovery = match error {
            SwdError::AckWait | SwdError::AckFault => vec![BusOp::HiZ(1)],
            _ => vec![BusOp::Read(33), BusOp::Read(1)],
        };
        let mut wire = Wire::new(&[ack]);
        assert_eq!(probe(&mut wire).read_inner(APnDP::AP, DPRegister::RDBUFF), Err(error));
        assert_eq!(wire.ops()[..2], [write(8, 0x9F), BusOp::Read(4)]);
        assert_eq!(wire.ops()[2..], recovery[..]);
        let mut wire = Wire::new(&[ack]);
        assert_eq!(probe(&mut wire).write_inner(APnDP::AP, DPRegister::RDBUFF, 1), Err(error));
        assert_eq!(wire.ops()[2..], recovery[..]);
    }
}

#[test]
fn request_bytes() {
    let request = |transfer: Transfer| transfer.request;
    assert_eq!(request(Transfer::read(APnDP::DP, DPRegister::DPIDR)), 0xA5);
    assert_eq!(request(Transfer::read(APnDP::DP, DPRegister::CTRLSTAT)), 0x8D);
    assert_eq!(request(Transfer::read(APnDP::DP, DPRegister::SELECT)), 0x95);
    assert_eq!(request(Transfer::read(APnDP::DP, DPRegister::RDBUFF)), 0xBD);
    assert_eq!(request(Transfer::write(APnDP::DP, DPRegister::DPIDR, 0)), 0x81);
    assert_eq!(request(Transfer::write(APnDP::DP, DPRegister::CTRLSTAT, 0)), 0xA9);
    assert_eq!(request(Transfer::read(APnDP::AP, DPRegister::DPIDR)), 0x87);
    assert_eq!(request(Transfer::write(APnDP::AP, DPRegister::RDBUFF, 0)), 0xBB);
}

#[test]
fn a_finished_transfer_stays_finished() {
    let mut transfer = Transfer::write(APnDP::DP, DPRegister::SELECT, 0);
    for reply in [0, 0, 0b0010, 0, 0, 0] {
        assert!(matches!(transfer.next(reply), TransferStep::Op(_)));
    }
    assert_eq!(transfer.next(0), TransferStep::Done(Ok(0)));
    assert_eq!(transfer.next(9), TransferStep::Done(Ok(0)));
}

#[test]
fn every_single_bit_error_is_noticed() {
    for val in [0u32, 1, 0xFFFF_FFFF, 0x1234_5678] {
        let parity = parity_bit(val);
        assert_eq!(check_parity(val, parity), Ok(val));
        for bit in 0..32 {
            assert_eq!(check_parity(val ^ (1 << bit), parity), Err(SwdError::BadParity));
        }
        assert_eq!(check_parity(val, parity ^ 1), Err(SwdError::BadParity));
    }
    assert_eq!(parity_bit(0b111), 1);
    assert_eq!(parity_bit(0b11), 0);
}

#[test]
fn command_words_have_their_fields() {
    assert_eq!(fmt_command(1, false, 0), 0);
    assert_eq!(fmt_command(8, true, 0), 0x107);
    assert_eq!(fmt_command(32, false, 8), 0x101F);
    assert_eq!(fmt_command(256, true, 31), 0x3FFF);
    assert_eq!(fmt_command(257, false, 1), 0x200);
}

#[test]
fn engines_push_commands_and_data() {
    let addrs = CmdAddrs::loaded_at(10, &OFFSETS);
    assert_eq!(addrs, CmdAddrs { write: 10, skip: 13, turnaround: 10, read: 18 });
    let (engine, divider) = SwdEngine::new(addrs, true, 125_000_000);
    // 125 system clocks for 1 MHz, in steps of 4, rounded up.
    assert_eq!(divider, 32);
    assert_eq!(engine.write_bits(8, 0xA5), [fmt_command(8, true, 10), 0xA5]);
    assert_eq!(engine.read_bits(32), fmt_command(32, false, 18));
    assert_eq!(engine.hiz_clocks(1), Some([fmt_command(1, false, 10), 0]));
    assert_eq!(engine.hiz_clocks(0), None);
    assert_eq!(engine.read_mode(), fmt_command(1, false, 13));
    assert_eq!(engine.write_mode(), fmt_command(1, true, 13));
    assert_eq!(engine.set_nreset(true), Some(ResetDrive::Assert));
    assert_eq!(engine.set_nreset(false), Some(ResetDrive::Release));
    assert!(!engine.nreset_level(false));
    let (without, _) = SwdEngine::new(addrs, false, 125_000_000);
    assert_eq!(without.set_nreset(true), None);
    assert!(without.nreset_level(false));
}

#[test]
fn clock_dividers() {
    let addrs = CmdAddrs::loaded_at(0, &OFFSETS);
    let (mut engine, _) = SwdEngine::new(addrs, true, 150_000_000);
    assert_eq!(engine.set_swclk_freq_khz(1000, 150_000_000), None);
    assert_eq!(engine.set_swclk_freq_khz(0, 150_000_000), None);
    assert_eq!(engine.set_swclk_freq_khz(3000, 150_000_000), Some(13));
    assert_eq!(engine.set_swclk_freq_khz(3000, 150_000_000), None);
    assert_eq!(engine.set_swclk_freq_khz(7000, 150_000_000), Some(6));
    assert_eq!(engine.set_swclk_freq_khz(1_000_000, 150_000_000), Some(1));
    assert_eq!(engine.set_swclk_freq_khz(1, 150_000_000), Some(37_500));
    assert_eq!(engine.set_swclk_freq_khz(2, u32::MAX), Some(65_535));
    assert_eq!(engine.cached_freq_khz, 2);
}

#[test]
fn swclk_stays_below_the_request() {
    let addrs = CmdAddrs::loaded_at(0, &OFFSETS);
    let (mut engine, _) = SwdEngine::new(addrs, true, 125_000_000);
    for khz in 1001..3000u32 {
        let divider = engine.set_swclk_freq_khz(khz, 125_000_000).unwrap();
        assert!(125_000 <= 4 * divider * khz);
    }
}

#[test]
fn received_bits_come_from_the_top() {
    assert_eq!(bits_read(32, 0xDEAD_BEEF), 0xDEAD_BEEF);
    assert_eq!(bits_read(33, 0xDEAD_BEEF), 0xDEAD_BEEF);
    assert_eq!(bits_read(4, 0xD000_0000), 0xD);
    assert_eq!(bits_read(1, 0x8000_0000), 1);
}

#[test]
fn sequences_are_split_into_bytes() {
    assert_eq!(sequence_chunks(51, 8), [8, 8, 8, 8, 8, 8, 3]);
    assert!(sequence_chunks(0, 1).is_empty());
    assert_eq!(sequence_chunks(64, 1), [8]);
    assert_eq!(sequence_chunks(17, 9), [8, 8, 1]);
    assert_eq!(sequence_chunks(17, 2), [8, 8]);
    assert_eq!(sequence_bytes(&[0x1FF, 7]), [0xFF, 7]);
}

#[test]
fn sequences_run_on_the_wire() {
    let mut wire = Wire::new(&[]);
    assert_eq!(probe(&mut wire).write_sequence(12, &[0xAB, 0xCD]), Ok(()));
    assert_eq!(wire.ops(), [write(8, 0xAB), write(4, 0xCD)]);
    let mut wire = Wire::new(&[]);
    ProbeContext::new(Engine(&mut wire)).process_swj_sequence(&[1, 2, 3, 4, 5, 6, 7, 8], 51);
    assert_eq!(
        wire.ops(),
        [
            write(8, 1),
            write(8, 2),
            write(8, 3),
            write(8, 4),
            write(8, 5),
            write(8, 6),
            write(3, 7),
        ]
    );
    let mut wire = Wire::new(&[0x55, 0x3]);
    assert_eq!(probe(&mut wire).read_sequence(10, 4), [0x55, 0x3]);
    assert_eq!(wire.ops(), [BusOp::Read(8), BusOp::Read(2)]);
}

#[test]
fn swj_clock_is_at_least_one_khz() {
    let mut wire = Wire::new(&[]);
    let mut context = ProbeContext::new(Engine(&mut wire));
    assert!(!context.set_swj_clock(0));
    assert!(context.set_swj_clock(1));
    assert!(context.set_swj_clock(999));
    assert!(context.set_swj_clock(1_999));
    assert!(context.set_swj_clock(10_000_000));
    let mut swd = context.into_swd();
    assert!(!swd.set_clock(0));
    assert!(swd.set_clock(2_000_000));
    assert_eq!(
        wire.log,
        [
            WireEvent::Frequency(1),
            WireEvent::Frequency(1),
            WireEvent::Frequency(1),
            WireEvent::Frequency(10_000),
            WireEvent::WriteMode,
            WireEvent::Frequency(2_000),
        ]
    );
}

#[test]
fn leaving_swd_mode_releases_the_lines_on_request() {
    let mut wire = Wire::new(&[]);
    let mut context = probe(&mut wire).into_context();
    assert!(context.nreset_level());
    context.set_nreset(true);
    assert!(!context.nreset_level());
    context.high_impedance_mode();
    assert_eq!(
        wire.log,
        [
            WireEvent::WriteMode,
            WireEvent::Level(true),
            WireEvent::Reset(true),
            WireEvent::Level(false),
            WireEvent::ReadMode,
            WireEvent::Reset(false),
        ]
    );
}

#[test]
fn only_the_reset_line_can_be_driven() {
    let pins = process_swj_pins(0x80, 0x80, 100);
    assert_eq!((pins.nreset, pins.wait), (Some(false), Some((true, 100))));
    let pins = process_swj_pins(0x03, 0x83, 0);
    assert_eq!((pins.nreset, pins.wait), (Some(true), None));
    let pins = process_swj_pins(0x80, 0x03, 100);
    assert_eq!((pins.nreset, pins.wait), (None, None));
    assert_eq!(swj_pins_state(true), 0x80);
    assert_eq!(swj_pins_state(false), 0);
}

#[test]
fn waiting_ends_at_the_level_or_the_deadline() {
    for wanted in [false, true] {
        assert!(keep_waiting(wanted, !wanted, 9, 10));
        assert!(!keep_waiting(wanted, !wanted, 10, 10));
        assert!(!keep_waiting(wanted, wanted, 9, 10));
    }
}
