//! The words that drive one SWD wire engine.
//!
//! Every entry of a state machine's TX FIFO is either a command word or up to 32
//! bits of data. A command word is
//!
//! ```text
//! | 13:9 |  8  |  7:0  |
//! | Cmd  | Dir | Count |
//! ```
//!
//! `Count` is the number of bits transferred, minus 1. `Dir` is the SWDIO output
//! enable. `Cmd` is the PIO address of the `write_cmd`, `read_cmd` or
//! `get_next_cmd` routine. One SWCLK period is 4 state-machine cycles.

use vstd::prelude::*;

verus! {

/// Instructions in a PIO block's memory; a routine's address has five bits.
pub const PIO_PROGRAM_LEN: u8 = 32;

/// SWCLK frequency of a new engine.
pub const INITIAL_FREQ_KHZ: u32 = 1000;

/// Jump targets within the loaded PIO program (absolute addresses).
#[derive(Debug, Clone, Copy, PartialEq, Eq, Structural)]
pub struct CmdAddrs {
    /// `write_cmd`: clocks bits out.
    pub write: u8,
    /// `get_next_cmd`: a no-op command that only applies `Dir`, used to switch
    /// the SWDIO direction without clocking.
    pub skip: u8,
    /// `turnaround_cmd`: clocks with SWDIO released.
    pub turnaround: u8,
    /// `read_cmd`: clocks bits in.
    pub read: u8,
}

impl CmdAddrs {
    /// All routines are within a PIO block's memory.
    pub open spec fn wf(&self) -> bool {
        &&& self.write < PIO_PROGRAM_LEN
        &&& self.skip < PIO_PROGRAM_LEN
        &&& self.turnaround < PIO_PROGRAM_LEN
        &&& self.read < PIO_PROGRAM_LEN
    }

    /// The routines of a program that was moved to `origin`.
    pub open spec fn moved(origin: u8, offsets: CmdAddrs) -> CmdAddrs {
        CmdAddrs {
            write: (origin + offsets.write) as u8,
            skip: (origin + offsets.skip) as u8,
            turnaround: (origin + offsets.turnaround) as u8,
            read: (origin + offsets.read) as u8,
        }
    }

    /// The addresses of the routines `offsets` (offsets of `write_cmd`,
    /// `get_next_cmd`, `turnaround_cmd` and `read_cmd`) of a program loaded at `origin`.
    pub fn loaded_at(origin: u8, offsets: &CmdAddrs) -> (r: CmdAddrs)
        requires
            origin + offsets.write < PIO_PROGRAM_LEN,
            origin + offsets.skip < PIO_PROGRAM_LEN,
            origin + offsets.turnaround < PIO_PROGRAM_LEN,
            origin + offsets.read < PIO_PROGRAM_LEN,
        ensures
            r.wf(),
            r == CmdAddrs::moved(origin, *offsets),
            r.write == origin + offsets.write,
            r.skip == origin + offsets.skip,
            r.turnaround == origin + offsets.turnaround,
            r.read == origin + offsets.read,
    {
        CmdAddrs {
            write: origin + offsets.write,
            skip: origin + offsets.skip,
            turnaround: origin + offsets.turnaround,
            read: origin + offsets.read,
        }
    }
}

/// The command word for `bit_count` bits.
pub open spec fn command_word(bit_count: u32, out_en: bool, cmd_addr: u8) -> int {
    (bit_count - 1) % 256 + (if out_en {
        256int
    } else {
        0int
    }) + 512 * cmd_addr
}

/// The command word for `bit_count` bits.
pub fn fmt_command(bit_count: u32, out_en: bool, cmd_addr: u8) -> (r: u32)
    requires
        bit_count >= 1,
    ensures
        r == command_word(bit_count, out_en, cmd_addr),
{
    let dir: u32 = if out_en {
        1
    } else {
        0
    };
    let count: u32 = bit_count - 1;
    let addr: u32 = cmd_addr as u32;
    assert(dir <= 1 && addr < 256 ==> (count & 0xff) | (dir << 8) | (addr << 9) == (count % 256)
        + 256 * dir + 512 * addr) by (bit_vector);
    (count & 0xff) | (dir << 8) | (addr << 9)
}

/// A command word holds the bit count, the direction and the routine's address in
/// fields of their own, and has 14 bits.
pub proof fn command_words_read_back(bit_count: u32, out_en: bool, cmd_addr: u8)
    requires
        1 <= bit_count <= 256,
        cmd_addr < PIO_PROGRAM_LEN,
    ensures
        ({
            let word = command_word(bit_count, out_en, cmd_addr);
            &&& 0 <= word < 0x4000
            &&& word % 256 == bit_count - 1
            &&& (word / 256) % 2 == (if out_en {
                1int
            } else {
                0int
            })
            &&& word / 512 == cmd_addr
        }),
{
}

/// One wire operation.
#[derive(Debug, Clone, Copy, PartialEq, Eq, Structural)]
pub enum BusOp {
    /// Clock out bits.
    Write {
        /// How many.
        bit_count: u32,
        /// The bits, LSB first.
        data: u32,
    },
    /// Clock in this many bits.
    Read(u32),
    /// Run this many clocks with the line released.
    HiZ(u32),
}

/// Something that was done on the wire.
#[derive(Debug, Clone, Copy, PartialEq, Eq)]
pub enum WireEvent {
    /// An operation was clocked, and this is what a read gave (0 after the others).
    Clocked(BusOp, u32),
    /// SWCLK was set to this frequency, in kHz.
    Frequency(u32),
    /// The probe released SWDIO.
    ReadMode,
    /// The probe took SWDIO over.
    WriteMode,
    /// The reset line was driven (true) or released (false).
    Reset(bool),
    /// The reset line was read, and this is its level (true = high, released).
    Level(bool),
}

/// SWD wire operations: what the DAP layer needs from an engine, independent of
/// which PIO block and state machine backs it.
pub trait SwdBus: Send {
    /// What was done on the wire so far, in order. An engine that is verified says so
    /// with a body of its own; the default only lets drivers outside Verus leave it out,
    /// and is known of no engine.
    closed spec fn done(&self) -> Seq<WireEvent> {
        Seq::empty()
    }

    /// Set the SWCLK frequency.
    fn set_swclk_freq_khz(&mut self, freq_khz: u32)
        ensures
            final(self).done() == old(self).done().push(WireEvent::Frequency(freq_khz)),
    ;

    /// Clock out `bit_count` bits, LSB first, driving SWDIO.
    fn write_bits(&mut self, bit_count: u32, data: u32)
        requires
            bit_count >= 1,
        ensures
            final(self).done() == old(self).done().push(
                WireEvent::Clocked(BusOp::Write { bit_count, data }, 0),
            ),
    ;

    /// Clock in `bit_count` bits, LSB first, SWDIO released.
    fn read_bits(&mut self, bit_count: u32) -> (r: u32)
        requires
            bit_count >= 1,
        ensures
            final(self).done() == old(self).done().push(
                WireEvent::Clocked(BusOp::Read(bit_count), r),
            ),
    ;

    /// Run `bit_count` clocks with SWDIO released (turnaround or line idle).
    fn hiz_clocks(&mut self, bit_count: u32)
        ensures
            final(self).done() == old(self).done().push(
                WireEvent::Clocked(BusOp::HiZ(bit_count), 0),
            ),
    ;

    /// Switch SWDIO to input (probe releases the line). Blocks until applied.
    fn read_mode(&mut self)
        ensures
            final(self).done() == old(self).done().push(WireEvent::ReadMode),
    ;

    /// Switch SWDIO to output (probe drives the line). Blocks until applied.
    fn write_mode(&mut self)
        ensures
            final(self).done() == old(self).done().push(WireEvent::WriteMode),
    ;

    /// Drive (true) or release (false) the nRESET line.
    fn set_nreset(&mut self, asserted: bool)
        ensures
            final(self).done() == old(self).done().push(WireEvent::Reset(asserted)),
    ;

    /// Current level of the nRESET line (true = high, released).
    fn nreset_level(&mut self) -> (r: bool)
        ensures
            final(self).done() == old(self).done().push(WireEvent::Level(r)),
    ;
}

/// How a reset line is driven: it emulates an open drain.
#[derive(Debug, Clone, Copy, PartialEq, Eq, Structural)]
pub enum ResetDrive {
    /// Output, driving low.
    Assert,
    /// Input with pull-up.
    Release,
}

/// What one wire engine is set up with.
#[derive(Debug, Clone, Copy, PartialEq, Eq, Structural)]
pub struct SwdEngine {
    /// Where the program's routines are.
    pub addrs: CmdAddrs,
    /// The engine has a reset pin.
    pub has_nreset: bool,
    /// Last SWCLK frequency requested, to skip redundant divider writes.
    pub cached_freq_khz: u32,
}

/// The clock divider for a SWCLK frequency: 4 state-machine cycles per period,
/// rounded up, and within what the hardware can hold.
pub open spec fn divider_for(clk_sys_khz: int, freq_khz: int) -> int {
    let cycles = (clk_sys_khz + freq_khz - 1) / freq_khz;
    let divider = (cycles + 3) / 4;
    if divider < 1 {
        1
    } else if divider > 65535 {
        65535
    } else {
        divider
    }
}

impl SwdEngine {
    /// The routines are within the program memory.
    pub open spec fn wf(&self) -> bool {
        self.addrs.wf()
    }

    /// An engine at the initial frequency, and the clock divider for it. The state
    /// machine starts at the address of `get_next_cmd`, idling for a command.
    pub fn new(addrs: CmdAddrs, has_nreset: bool, clk_sys_hz: u32) -> (r: (SwdEngine, u32))
        requires
            addrs.wf(),
        ensures
            r.0.wf(),
            r.0 == (SwdEngine { addrs, has_nreset, cached_freq_khz: INITIAL_FREQ_KHZ }),
            r.1 == divider_for(clk_sys_hz as int / 1000, INITIAL_FREQ_KHZ as int),
    {
        let mut engine = SwdEngine { addrs, has_nreset, cached_freq_khz: 0 };
        match engine.set_swclk_freq_khz(INITIAL_FREQ_KHZ, clk_sys_hz) {
            Some(divider) => (engine, divider),
            None => (engine, 1),
        }
    }

    /// The engine after it was asked for a frequency, and the divider to write, if any.
    pub open spec fn tuned(self, freq_khz: u32, clk_sys_hz: u32) -> (SwdEngine, Option<int>) {
        if freq_khz == 0 || freq_khz == self.cached_freq_khz {
            (self, None)
        } else {
            (
                SwdEngine { cached_freq_khz: freq_khz, ..self },
                Some(divider_for(clk_sys_hz as int / 1000, freq_khz as int)),
            )
        }
    }

    /// Set the SWCLK frequency. The result is the clock divider to write, and `None`
    /// where nothing is to be done: for the frequency in force, and for 0.
    pub fn set_swclk_freq_khz(&mut self, freq_khz: u32, clk_sys_hz: u32) -> (r: Option<u32>)
        ensures
            *final(self) == (SwdEngine {
                cached_freq_khz: if freq_khz == 0 {
                    old(self).cached_freq_khz
                } else {
                    freq_khz
                },
                ..*old(self)
            }),
            *final(self) == old(self).tuned(freq_khz, clk_sys_hz).0,
            match r {
                Some(divider) => Some(divider as int),
                None => None,
            } == old(self).tuned(freq_khz, clk_sys_hz).1,
            r is None <==> freq_khz == 0 || freq_khz == old(self).cached_freq_khz,
            r matches Some(divider) ==> divider == divider_for(
                clk_sys_hz as int / 1000,
                freq_khz as int,
            ),
    {
        if freq_khz == self.cached_freq_khz || freq_khz == 0 {
            return None;
        }
        self.cached_freq_khz = freq_khz;
        let clk_sys_khz: u32 = clk_sys_hz / 1000;
        let whole: u32 = clk_sys_khz / freq_khz;
        let cycles: u32 = if clk_sys_khz % freq_khz == 0 {
            whole
        } else {
            assert(freq_khz >= 1);
            assert(whole <= clk_sys_khz) by (nonlinear_arith)
                requires
                    whole == clk_sys_khz / freq_khz,
                    freq_khz >= 1,
            ;
            whole + 1
        };
        proof {
            let c = clk_sys_khz as int;
            let f = freq_khz as int;
            assert(c == f * (c / f) + c % f && 0 <= c % f < f) by (nonlinear_arith)
                requires
                    f >= 1,
            ;
            if c % f == 0 {
                assert((c + f - 1) / f == c / f) by (nonlinear_arith)
                    requires
                        f >= 1,
                        c == f * (c / f),
                ;
            } else {
                assert((c + f - 1) / f == c / f + 1) by (nonlinear_arith)
                    requires
                        f >= 1,
                        c == f * (c / f) + c % f,
                        1 <= c % f < f,
                ;
            }
            assert(c / f <= c) by (nonlinear_arith)
                requires
                    f >= 1,
                    c >= 0,
            ;
        }
        let divider: u32 = (cycles + 3) / 4;
        if divider < 1 {
            Some(1)
        } else if divider > 65535 {
            Some(65535)
        } else {
            Some(divider)
        }
    }

    /// The FIFO entries of a wire operation: a command word, and the data that goes out
    /// with it. A read has no data.
    pub open spec fn entries(self, op: BusOp) -> Seq<int> {
        match op {
            BusOp::Write { bit_count, data } => seq![
                command_word(bit_count, true, self.addrs.write),
                data as int,
            ],
            BusOp::Read(bit_count) => seq![command_word(bit_count, false, self.addrs.read)],
            BusOp::HiZ(bit_count) => if bit_count == 0 {
                Seq::empty()
            } else {
                seq![command_word(bit_count, false, self.addrs.turnaround), 0]
            },
        }
    }

    /// The FIFO entry that only switches SWDIO.
    pub open spec fn switch_entry(self, drive: bool) -> int {
        command_word(1, drive, self.addrs.skip)
    }

    /// How the reset line is driven (true) or released (false).
    pub open spec fn reset_drive(self, asserted: bool) -> Option<ResetDrive> {
        if !self.has_nreset {
            None
        } else if asserted {
            Some(ResetDrive::Assert)
        } else {
            Some(ResetDrive::Release)
        }
    }

    /// The level of the reset line, given that of its pin.
    pub open spec fn reset_level(self, pin_high: bool) -> bool {
        !self.has_nreset || pin_high
    }

    /// The FIFO entries that clock out `bit_count` bits, LSB first, driving SWDIO.
    pub fn write_bits(&self, bit_count: u32, data: u32) -> (r: [u32; 2])
        requires
            bit_count >= 1,
        ensures
            seq![r[0] as int, r[1] as int] == self.entries(BusOp::Write { bit_count, data }),
            r[0] == command_word(bit_count, true, self.addrs.write),
            r[1] == data,
    {
        [fmt_command(bit_count, true, self.addrs.write), data]
    }

    /// The FIFO entry that clocks in `bit_count` bits, LSB first, with SWDIO released.
    pub fn read_bits(&self, bit_count: u32) -> (r: u32)
        requires
            bit_count >= 1,
        ensures
            seq![r as int] == self.entries(BusOp::Read(bit_count)),
            r == command_word(bit_count, false, self.addrs.read),
    {
        fmt_command(bit_count, false, self.addrs.read)
    }

    /// The FIFO entries that run `bit_count` clocks with SWDIO released (turnaround
    /// or line idle); none for 0.
    pub fn hiz_clocks(&self, bit_count: u32) -> (r: Option<[u32; 2]>)
        ensures
            match r {
                Some(words) => seq![words[0] as int, words[1] as int],
                None => Seq::empty(),
            } == self.entries(BusOp::HiZ(bit_count)),
            r is None <==> bit_count == 0,
            r matches Some(words) ==> words[0] == command_word(
                bit_count,
                false,
                self.addrs.turnaround,
            ) && words[1] == 0,
    {
        if bit_count == 0 {
            return None;
        }
        Some([fmt_command(bit_count, false, self.addrs.turnaround), 0])
    }

    /// The FIFO entry that switches SWDIO to input: the probe releases the line.
    pub fn read_mode(&self) -> (r: u32)
        ensures
            r == self.switch_entry(false),
            r == command_word(1, false, self.addrs.skip),
    {
        fmt_command(1, false, self.addrs.skip)
    }

    /// The FIFO entry that switches SWDIO to output: the probe drives the line.
    pub fn write_mode(&self) -> (r: u32)
        ensures
            r == self.switch_entry(true),
            r == command_word(1, true, self.addrs.skip),
    {
        fmt_command(1, true, self.addrs.skip)
    }

    /// How to drive (true) or release (false) the reset line; `None` without one.
    pub fn set_nreset(&self, asserted: bool) -> (r: Option<ResetDrive>)
        ensures
            r == self.reset_drive(asserted),
    {
        if !self.has_nreset {
            None
        } else if asserted {
            Some(ResetDrive::Assert)
        } else {
            Some(ResetDrive::Release)
        }
    }

    /// Level of the reset line (true = high, released), given that of its pin.
    /// Without a pin the line counts as released.
    pub fn nreset_level(&self, pin_high: bool) -> (r: bool)
        ensures
            r == self.reset_level(pin_high),
    {
        !self.has_nreset || pin_high
    }
}

/// The bits of a read, given the RX FIFO entry.
pub open spec fn read_value(bit_count: u32, entry: u32) -> u32 {
    if bit_count < 32 {
        entry >> ((32 - bit_count) as u32)
    } else {
        entry
    }
}

/// The bits of a read, given the RX FIFO entry. The entry was filled from the top,
/// so fewer than 32 bits are moved down.
pub fn bits_read(bit_count: u32, entry: u32) -> (r: u32)
    requires
        bit_count >= 1,
    ensures
        r == read_value(bit_count, entry),
        bit_count >= 32 ==> r == entry,
        bit_count < 32 ==> r == entry >> ((32 - bit_count) as u32),
        bit_count < 32 ==> r < 1u32 << bit_count,
{
    if bit_count < 32 {
        let up: u32 = 32 - bit_count;
        assert(1 <= bit_count < 32 && up == 32 - bit_count ==> entry >> up < 1u32 << bit_count)
            by (bit_vector);
        entry >> up
    } else {
        entry
    }
}

/// SWCLK is never faster than asked for, unless the slowest setting is too fast
/// already: 4 state-machine cycles of `divider` system clocks each take at least
/// one period of the frequency.
pub proof fn swclk_is_never_faster(clk_sys_khz: int, freq_khz: int)
    requires
        clk_sys_khz >= 0,
        freq_khz >= 1,
        divider_for(clk_sys_khz, freq_khz) < 65535,
    ensures
        clk_sys_khz <= 4 * divider_for(clk_sys_khz, freq_khz) * freq_khz,
{
    let cycles = (clk_sys_khz + freq_khz - 1) / freq_khz;
    let divider = divider_for(clk_sys_khz, freq_khz);
    assert(clk_sys_khz <= cycles * freq_khz) by (nonlinear_arith)
        requires
            cycles == (clk_sys_khz + freq_khz - 1) / freq_khz,
            freq_khz >= 1,
    ;
    assert(cycles <= 4 * divider);
    assert(cycles * freq_khz <= (4 * divider) * freq_khz) by (nonlinear_arith)
        requires
            cycles <= 4 * divider,
            freq_khz >= 1,
    ;
}

/// SWCLK is as fast as it can be without being faster than asked for: the divider is one
/// that the hardware can hold, a smaller one would be too fast, and it is itself not
/// too fast unless it is the largest there is.
pub proof fn swclk_is_the_fastest_allowed(clk_sys_khz: int, freq_khz: int, d: int)
    requires
        clk_sys_khz >= 0,
        freq_khz >= 1,
    ensures
        1 <= divider_for(clk_sys_khz, freq_khz) <= 65535,
        clk_sys_khz <= 4 * divider_for(clk_sys_khz, freq_khz) * freq_khz || divider_for(
            clk_sys_khz,
            freq_khz,
        ) == 65535,
        1 <= d < divider_for(clk_sys_khz, freq_khz) ==> 4 * d * freq_khz < clk_sys_khz,
{
    let divider = divider_for(clk_sys_khz, freq_khz);
    if divider < 65535 {
        swclk_is_never_faster(clk_sys_khz, freq_khz);
    }
    let cycles = (clk_sys_khz + freq_khz - 1) / freq_khz;
    assert((cycles - 1) * freq_khz < clk_sys_khz) by (nonlinear_arith)
        requires
            cycles == (clk_sys_khz + freq_khz - 1) / freq_khz,
            freq_khz >= 1,
    ;
    if 1 <= d < divider {
        assert(4 * d <= cycles - 1);
        assert((4 * d) * freq_khz <= (cycles - 1) * freq_khz) by (nonlinear_arith)
            requires
                4 * d <= cycles - 1,
                freq_khz >= 1,
        ;
    }
}

/// A new engine runs SWCLK as fast as it can at no more than 1 MHz.
pub proof fn engines_start_at_one_megahertz(clk_sys_khz: int, d: int)
    requires
        clk_sys_khz >= 0,
    ensures
        ({
            let divider = divider_for(clk_sys_khz, INITIAL_FREQ_KHZ as int);
            &&& clk_sys_khz <= 4000 * divider || divider == 65535
            &&& 1 <= d < divider ==> 4000 * d < clk_sys_khz
        }),
{
    swclk_is_the_fastest_allowed(clk_sys_khz, INITIAL_FREQ_KHZ as int, d);
}

/// Whatever the bit count, a command word has it, less one and modulo 256, in its low
/// byte, the direction in the bit above, and the routine's address above that.
pub proof fn command_words_have_three_fields(bit_count: u32, out_en: bool, cmd_addr: u8)
    requires
        bit_count >= 1,
    ensures
        command_word(bit_count, out_en, cmd_addr) % 256 == (bit_count - 1) % 256,
        (command_word(bit_count, out_en, cmd_addr) / 256) % 2 == 1 <==> out_en,
        command_word(bit_count, out_en, cmd_addr) / 512 == cmd_addr,
        0 <= command_word(bit_count, out_en, cmd_addr) < 0x2_0000,
{
}

/// What each operation puts into the FIFO: a write the address of `write_cmd`, with
/// SWDIO driven, and then its data; a read the address of `read_cmd`, with SWDIO
/// released, and no data; clocks with the line released the address of
/// `turnaround_cmd`, with SWDIO released, and a word of zeros. The low byte of the
/// first entry is the bit count less one. Switching the direction is one bit of
/// `get_next_cmd`.
pub proof fn operations_name_their_routine(engine: SwdEngine, bit_count: u32, data: u32)
    requires
        1 <= bit_count <= 256,
        engine.wf(),
    ensures
        ({
            let entries = engine.entries(BusOp::Write { bit_count, data });
            &&& entries.len() == 2
            &&& entries[0] % 256 == bit_count - 1
            &&& (entries[0] / 256) % 2 == 1
            &&& entries[0] / 512 == engine.addrs.write
            &&& entries[1] == data
        }),
        ({
            let entries = engine.entries(BusOp::Read(bit_count));
            &&& entries.len() == 1
            &&& entries[0] % 256 == bit_count - 1
            &&& (entries[0] / 256) % 2 == 0
            &&& entries[0] / 512 == engine.addrs.read
        }),
        ({
            let entries = engine.entries(BusOp::HiZ(bit_count));
            &&& entries.len() == 2
            &&& entries[0] % 256 == bit_count - 1
            &&& (entries[0] / 256) % 2 == 0
            &&& entries[0] / 512 == engine.addrs.turnaround
            &&& entries[1] == 0
        }),
        engine.entries(BusOp::HiZ(0)).len() == 0,
        forall|drive: bool|
            {
                &&& #[trigger] engine.switch_entry(drive) % 256 == 0
                &&& (engine.switch_entry(drive) / 256) % 2 == 1 <==> drive
                &&& engine.switch_entry(drive) / 512 == engine.addrs.skip
            },
{
}

/// Moving a program moves every routine by the same distance.
pub proof fn routines_move_together(origin: u8, offsets: CmdAddrs)
    requires
        origin + offsets.write < 32,
        origin + offsets.skip < 32,
        origin + offsets.turnaround < 32,
        origin + offsets.read < 32,
    ensures
        ({
            let moved = CmdAddrs::moved(origin, offsets);
            &&& moved.write - offsets.write == origin
            &&& moved.skip - offsets.skip == origin
            &&& moved.turnaround - offsets.turnaround == origin
            &&& moved.read - offsets.read == origin
        }),
{
}

/// A read of fewer than 32 bits gives the top bits of the entry: what was read is the
/// entry without the bits below, and has no more bits than were asked for.
pub proof fn reads_give_the_top_bits(bit_count: u32, entry: u32, k: u32)
    requires
        bit_count >= 1,
        k < 32,
    ensures
        bit_count >= 32 ==> read_value(bit_count, entry) == entry,
        bit_count < 32 && k < bit_count ==> (read_value(bit_count, entry) >> k) & 1u32 == (entry
            >> ((32 - bit_count + k) as u32)) & 1u32,
        bit_count < 32 && k >= bit_count ==> (read_value(bit_count, entry) >> k) & 1u32 == 0,
{
    if bit_count < 32 {
        let up: u32 = (32 - bit_count) as u32;
        let at: u32 = (32 - bit_count + k) as u32;
        assert(1 <= bit_count < 32 && up == 32 - bit_count && k < bit_count && at == up + k ==> ((
        entry >> up) >> k) & 1u32 == (entry >> at) & 1u32) by (bit_vector);
        assert(1 <= bit_count < 32 && up == 32 - bit_count && bit_count <= k < 32 ==> ((entry >> up)
            >> k) & 1u32 == 0) by (bit_vector);
    }
}

/// With a reset pin the line is driven exactly when it is asserted, released exactly
/// when it is not, and its level is that of the pin. Without one nothing is driven, and
/// the line reads as released.
pub proof fn reset_lines_are_open_drain(engine: SwdEngine, asserted: bool, pin_high: bool)
    ensures
        engine.has_nreset ==> (engine.reset_drive(asserted) == Some(ResetDrive::Assert) <==> asserted),
        engine.has_nreset ==> (engine.reset_drive(asserted) == Some(ResetDrive::Release)
            <==> !asserted),
        engine.has_nreset ==> engine.reset_level(pin_high) == pin_high,
        !engine.has_nreset ==> engine.reset_drive(asserted) is None && engine.reset_level(pin_high),
{
}

/// Every frequency that is asked for is set, but for 0 and the one in force, which change
/// nothing. What was asked for is then in force: asking for it again does nothing,
/// and going back to the frequency before writes its divider again.
pub proof fn every_new_frequency_is_set(engine: SwdEngine, freq_khz: u32, clk_sys_hz: u32)
    ensures
        ({
            let (after, divider) = engine.tuned(freq_khz, clk_sys_hz);
            &&& freq_khz == 0 || freq_khz == engine.cached_freq_khz ==> divider is None && after
                == engine
            &&& freq_khz != 0 && freq_khz != engine.cached_freq_khz ==> {
                &&& divider matches Some(d) && 1 <= d <= 65535 && (clk_sys_hz / 1000 <= 4 * d
                    * freq_khz || d == 65535)
                &&& after.tuned(freq_khz, clk_sys_hz).1 is None
                &&& engine.cached_freq_khz != 0 ==> after.tuned(
                    engine.cached_freq_khz,
                    clk_sys_hz,
                ).1 is Some
                &&& after.addrs == engine.addrs && after.has_nreset == engine.has_nreset
            }
        }),
{
    if freq_khz != 0 {
        swclk_is_the_fastest_allowed(clk_sys_hz as int / 1000, freq_khz as int, 0);
    }
}

} // verus!
