//! Serial-port to hardware-UART bridges, one per configured UART: what a bridge
//! waits for, and what it does with each thing that happens.
//!
//! Bytes are copied in both directions a USB packet at a time. Only the baud rate
//! of a host line coding is applied live; the rest of the format takes effect
//! when the UART is set up, see [`apply_line_coding`]. A deasserted DTR pauses the
//! bridge. The magic baud rate asks the probe to measure the target's rate.

use vstd::prelude::*;

use crate::autobaud::{start, stop, BaudResult, Command};

verus! {

/// Receive and transmit ring-buffer size of each UART, in bytes.
pub const UART_BUF_SIZE: usize = 256;

/// Bulk packet size of the serial ports (full-speed maximum packet size).
pub const CDC_PACKET_SIZE: u16 = 64;

/// The autobaud trigger. A host selecting this rate asks the probe to *measure*
/// the target's baud rather than set a literal line rate.
pub const MAGIC_BAUD: u32 = 9728;

/// Parity of a host line coding.
#[derive(Debug, Clone, Copy, PartialEq, Eq, Structural)]
pub enum ParityType {
    /// No parity bit.
    NoParity,
    /// Odd parity.
    Odd,
    /// Even parity.
    Even,
    /// Parity bit always 1.
    Mark,
    /// Parity bit always 0.
    Space,
}

/// Stop bits of a host line coding.
#[derive(Debug, Clone, Copy, PartialEq, Eq, Structural)]
pub enum StopBits {
    /// 1 stop bit.
    One,
    /// 1.5 stop bits.
    OnePointFive,
    /// 2 stop bits.
    Two,
}

/// The serial format that a host asks for.
#[derive(Debug, Clone, Copy, PartialEq, Eq, Structural)]
pub struct LineCoding {
    /// Baud rate.
    pub data_rate: u32,
    /// Data bits per character.
    pub data_bits: u8,
    /// Parity.
    pub parity_type: ParityType,
    /// Stop bits.
    pub stop_bits: StopBits,
}

/// Data bits of a hardware UART.
#[derive(Debug, Clone, Copy, PartialEq, Eq, Structural)]
pub enum DataBits {
    /// 5 data bits.
    DataBits5,
    /// 6 data bits.
    DataBits6,
    /// 7 data bits.
    DataBits7,
    /// 8 data bits.
    DataBits8,
}

/// Parity of a hardware UART.
#[derive(Debug, Clone, Copy, PartialEq, Eq, Structural)]
pub enum Parity {
    /// No parity bit.
    ParityNone,
    /// Even parity.
    ParityEven,
    /// Odd parity.
    ParityOdd,
}

/// Stop bits of a hardware UART.
#[derive(Debug, Clone, Copy, PartialEq, Eq, Structural)]
pub enum HardwareStopBits {
    /// 1 stop bit.
    Stop1,
    /// 2 stop bits.
    Stop2,
}

/// Configuration of a hardware UART.
#[derive(Debug, Clone, Copy, PartialEq, Eq, Structural)]
pub struct UartSettings {
    /// Baud rate.
    pub baudrate: u32,
    /// Data bits.
    pub data_bits: DataBits,
    /// Stop bits.
    pub stop_bits: HardwareStopBits,
    /// Parity.
    pub parity: Parity,
    /// Invert the TX pin output.
    pub invert_tx: bool,
    /// Invert the RX pin input.
    pub invert_rx: bool,
    /// Invert the RTS pin.
    pub invert_rts: bool,
    /// Invert the CTS pin.
    pub invert_cts: bool,
}

impl Default for UartSettings {
    /// 115200 baud, 8 data bits, no parity, 1 stop bit, nothing inverted.
    fn default() -> (r: UartSettings)
        ensures
            r == (UartSettings {
                baudrate: 115200,
                data_bits: DataBits::DataBits8,
                stop_bits: HardwareStopBits::Stop1,
                parity: Parity::ParityNone,
                invert_tx: false,
                invert_rx: false,
                invert_rts: false,
                invert_cts: false,
            }),
    {
        UartSettings {
            baudrate: 115200,
            data_bits: DataBits::DataBits8,
            stop_bits: HardwareStopBits::Stop1,
            parity: Parity::ParityNone,
            invert_tx: false,
            invert_rx: false,
            invert_rts: false,
            invert_cts: false,
        }
    }
}

/// The UART configuration for a host line coding.
pub open spec fn line_settings(base: UartSettings, coding: LineCoding) -> UartSettings {
    UartSettings {
        baudrate: coding.data_rate,
        data_bits: if coding.data_bits == 5 {
            DataBits::DataBits5
        } else if coding.data_bits == 6 {
            DataBits::DataBits6
        } else if coding.data_bits == 7 {
            DataBits::DataBits7
        } else {
            DataBits::DataBits8
        },
        parity: if coding.parity_type is Odd {
            Parity::ParityOdd
        } else if coding.parity_type is Even {
            Parity::ParityEven
        } else {
            Parity::ParityNone
        },
        stop_bits: if coding.stop_bits is One {
            HardwareStopBits::Stop1
        } else {
            HardwareStopBits::Stop2
        },
        ..base
    }
}

/// Turn a host line coding into a UART configuration, starting from `base`
/// (which carries the fields that the host does not choose): 5 to 8 data bits
/// (else 8), odd, even or no parity (else none), and 1 or 2 stop bits. 1.5 stop
/// bits become 2, as the hardware has no 1.5.
pub fn apply_line_coding(base: UartSettings, coding: &LineCoding) -> (r: UartSettings)
    ensures
        r == line_settings(base, *coding),
{
    let mut c: UartSettings = base;
    c.baudrate = coding.data_rate;
    c.data_bits = match coding.data_bits {
        5 => DataBits::DataBits5,
        6 => DataBits::DataBits6,
        7 => DataBits::DataBits7,
        _ => DataBits::DataBits8,
    };
    c.parity = match coding.parity_type {
        ParityType::Odd => Parity::ParityOdd,
        ParityType::Even => Parity::ParityEven,
        _ => Parity::ParityNone,
    };
    c.stop_bits = match coding.stop_bits {
        StopBits::Two | StopBits::OnePointFive => HardwareStopBits::Stop2,
        StopBits::One => HardwareStopBits::Stop1,
    };
    c
}

/// What a bridge waits for.
#[derive(Debug, Clone, Copy, PartialEq, Eq, Structural)]
pub enum Waiting {
    /// The host to connect.
    Connection,
    /// A change of the control lines: the host has the port closed.
    Control,
    /// A packet from the host, bytes from the target, a change of the line coding
    /// or the control lines, or an autobaud result, whichever comes first.
    Traffic,
}

/// What happens to a bridge.
#[derive(Debug, PartialEq, Eq)]
pub enum BridgeEvent {
    /// The host connected.
    Connected,
    /// The control lines changed while the bridge was paused.
    ControlWhilePaused,
    /// A packet from the host.
    HostPacket(Vec<u8>),
    /// The host's endpoint was disabled.
    HostGone,
    /// Bytes from the target.
    TargetBytes(Vec<u8>),
    /// A framing, overrun, parity or break error on the target's line.
    TargetError,
    /// The host changed the line coding or the control lines.
    LineChanged(LineCoding),
    /// Autobaud published a result.
    Detected(BaudResult),
    /// Handing bytes on failed.
    WriteFailed,
}

/// What a bridge does about it.
#[derive(Debug, PartialEq, Eq)]
pub enum BridgeAction {
    /// Nothing.
    Nothing,
    /// Write these bytes to the target.
    ToTarget(Vec<u8>),
    /// Write these bytes to the host.
    ToHost(Vec<u8>),
    /// Set the UART's baud rate.
    SetBaud(u32),
    /// Give autobaud this command.
    Autobaud(Command),
    /// Give autobaud the first, and set the UART's baud rate to the second.
    AutobaudThenSetBaud(Command, u32),
}

/// One bridge between a serial port and a hardware UART.
#[derive(Debug, Clone, Copy, PartialEq, Eq, Structural)]
pub struct Bridge {
    /// Index of the bridge.
    pub uart: u8,
    /// RX pin of its UART.
    pub rx_pin: u8,
    /// The host is connected.
    pub connected: bool,
    /// The bridge started an autobaud session and has not stopped it.
    pub measuring: bool,
}

impl Bridge {
    /// The bridge after an event.
    pub open spec fn after(self, event: BridgeEvent) -> Bridge {
        match event {
            BridgeEvent::Connected => Bridge { connected: true, ..self },
            BridgeEvent::HostGone | BridgeEvent::WriteFailed => Bridge { connected: false, ..self },
            BridgeEvent::LineChanged(coding) => Bridge {
                measuring: coding.data_rate == MAGIC_BAUD,
                ..self
            },
            _ => self,
        }
    }

    /// What the bridge does about an event.
    pub open spec fn action(self, event: BridgeEvent) -> BridgeAction {
        match event {
            BridgeEvent::HostPacket(bytes) => BridgeAction::ToTarget(bytes),
            BridgeEvent::TargetBytes(bytes) => BridgeAction::ToHost(bytes),
            BridgeEvent::LineChanged(coding) => if coding.data_rate == MAGIC_BAUD {
                BridgeAction::Autobaud(Command::Start { uart: self.uart, rx_pin: self.rx_pin })
            } else if self.measuring {
                BridgeAction::AutobaudThenSetBaud(Command::Stop, coding.data_rate)
            } else {
                BridgeAction::SetBaud(coding.data_rate)
            },
            BridgeEvent::Detected(result) => if self.measuring && result.uart == self.uart {
                BridgeAction::SetBaud(result.baud)
            } else {
                BridgeAction::Nothing
            },
            _ => BridgeAction::Nothing,
        }
    }

    /// A bridge whose host has not connected.
    pub fn new(uart: u8, rx_pin: u8) -> (r: Bridge)
        ensures
            r == (Bridge { uart, rx_pin, connected: false, measuring: false }),
    {
        Bridge { uart, rx_pin, connected: false, measuring: false }
    }

    /// What the bridge waits for, given the DTR line.
    pub open spec fn waits_for(self, dtr: bool) -> Waiting {
        if !self.connected {
            Waiting::Connection
        } else if !dtr {
            Waiting::Control
        } else {
            Waiting::Traffic
        }
    }

    /// What the bridge waits for, given the DTR line.
    pub fn waiting(&self, dtr: bool) -> (r: Waiting)
        ensures
            r == self.waits_for(dtr),
    {
        if !self.connected {
            Waiting::Connection
        } else if !dtr {
            Waiting::Control
        } else {
            Waiting::Traffic
        }
    }

    /// Take up an event, and say what to do about it.
    pub fn step(&mut self, event: BridgeEvent) -> (r: BridgeAction)
        ensures
            *final(self) == old(self).after(event),
            r == old(self).action(event),
    {
        match event {
            BridgeEvent::Connected => {
                self.connected = true;
                BridgeAction::Nothing
            },
            BridgeEvent::HostPacket(bytes) => BridgeAction::ToTarget(bytes),
            BridgeEvent::TargetBytes(bytes) => BridgeAction::ToHost(bytes),
            BridgeEvent::LineChanged(coding) => {
                let was_measuring: bool = self.measuring;
                self.measuring = coding.data_rate == MAGIC_BAUD;
                if self.measuring {
                    return BridgeAction::Autobaud(start(self.uart, self.rx_pin));
                }
                let settings = apply_line_coding(UartSettings::default(), &coding);
                if was_measuring {
                    BridgeAction::AutobaudThenSetBaud(stop(), settings.baudrate)
                } else {
                    BridgeAction::SetBaud(settings.baudrate)
                }
            },
            BridgeEvent::Detected(result) => if self.measuring && result.uart == self.uart {
                BridgeAction::SetBaud(result.baud)
            } else {
                BridgeAction::Nothing
            },
            BridgeEvent::HostGone | BridgeEvent::WriteFailed => {
                self.connected = false;
                BridgeAction::Nothing
            },
            BridgeEvent::ControlWhilePaused | BridgeEvent::TargetError => BridgeAction::Nothing,
        }
    }
}

/// The magic rate is never applied to the line: it starts a measurement, and a
/// result of that measurement for this bridge is applied instead.
pub proof fn magic_baud_is_measured(bridge: Bridge, coding: LineCoding, result: BaudResult)
    requires
        coding.data_rate == MAGIC_BAUD,
        result.uart == bridge.uart,
    ensures
        bridge.action(BridgeEvent::LineChanged(coding)) == BridgeAction::Autobaud(
            Command::Start { uart: bridge.uart, rx_pin: bridge.rx_pin },
        ),
        bridge.after(BridgeEvent::LineChanged(coding)).action(BridgeEvent::Detected(result))
            == BridgeAction::SetBaud(result.baud),
{
}

/// A result for another bridge, or one that comes after the host chose a rate of
/// its own, changes nothing.
pub proof fn stray_results_are_ignored(bridge: Bridge, coding: LineCoding, result: BaudResult)
    ensures
        result.uart != bridge.uart ==> bridge.action(BridgeEvent::Detected(result))
            == BridgeAction::Nothing,
        coding.data_rate != MAGIC_BAUD ==> bridge.after(BridgeEvent::LineChanged(coding)).action(
            BridgeEvent::Detected(result),
        ) == BridgeAction::Nothing,
        bridge.after(BridgeEvent::Detected(result)) == bridge,
{
}

/// Every rate but the magic one is set on the UART as it is, whatever the rest of the
/// coding says. A measurement that was running is stopped, and only then.
pub proof fn chosen_rates_are_set(bridge: Bridge, coding: LineCoding)
    requires
        coding.data_rate != 9728,
    ensures
        match bridge.action(BridgeEvent::LineChanged(coding)) {
            BridgeAction::SetBaud(rate) => rate == coding.data_rate && !bridge.measuring,
            BridgeAction::AutobaudThenSetBaud(command, rate) => rate == coding.data_rate
                && bridge.measuring && command == Command::Stop,
            _ => false,
        },
        !bridge.after(BridgeEvent::LineChanged(coding)).measuring,
        bridge.after(BridgeEvent::LineChanged(coding)).connected == bridge.connected,
{
}

/// The magic rate starts a measurement of this bridge's UART, on its RX pin, every time;
/// a rate that is then detected for this bridge is set as it is.
pub proof fn magic_rate_starts_a_measurement(
    bridge: Bridge,
    coding: LineCoding,
    result: BaudResult,
)
    requires
        coding.data_rate == 9728,
    ensures
        bridge.action(BridgeEvent::LineChanged(coding)) matches BridgeAction::Autobaud(
            Command::Start { uart, rx_pin },
        ) && uart == bridge.uart && rx_pin == bridge.rx_pin,
        ({
            let after = bridge.after(BridgeEvent::LineChanged(coding));
            &&& after.measuring
            &&& after.uart == bridge.uart && after.rx_pin == bridge.rx_pin
            &&& after.connected == bridge.connected
            &&& result.uart == bridge.uart ==> (after.action(BridgeEvent::Detected(result)) matches
                BridgeAction::SetBaud(rate) && rate == result.baud)
            &&& result.uart != bridge.uart ==> after.action(BridgeEvent::Detected(result))
                == BridgeAction::Nothing
        }),
{
}

/// Bytes are handed on as they came, in both directions, and change nothing else.
pub proof fn bytes_pass_unchanged(bridge: Bridge, bytes: Vec<u8>)
    ensures
        bridge.action(BridgeEvent::HostPacket(bytes)) matches BridgeAction::ToTarget(out) && out@
            == bytes@,
        bridge.action(BridgeEvent::TargetBytes(bytes)) matches BridgeAction::ToHost(out) && out@
            == bytes@,
        bridge.after(BridgeEvent::HostPacket(bytes)) == bridge,
        bridge.after(BridgeEvent::TargetBytes(bytes)) == bridge,
{
}

/// A bridge serves traffic exactly while its host is connected and holds DTR; without DTR
/// it waits for the control lines, and after a disconnection or a failed write for the
/// next connection. None of this is an action, and none ends a measurement.
pub proof fn bridges_follow_connection_and_dtr(bridge: Bridge, dtr: bool)
    ensures
        bridge.after(BridgeEvent::Connected).waits_for(true) == Waiting::Traffic,
        bridge.after(BridgeEvent::Connected).waits_for(false) == Waiting::Control,
        bridge.after(BridgeEvent::HostGone).waits_for(dtr) == Waiting::Connection,
        bridge.after(BridgeEvent::WriteFailed).waits_for(dtr) == Waiting::Connection,
        bridge.waits_for(dtr) == Waiting::Traffic <==> bridge.connected && dtr,
        bridge.after(BridgeEvent::ControlWhilePaused) == bridge,
        bridge.after(BridgeEvent::TargetError) == bridge,
        forall|event: BridgeEvent|
            event == BridgeEvent::Connected || event == BridgeEvent::HostGone || event
                == BridgeEvent::WriteFailed || event == BridgeEvent::ControlWhilePaused || event
                == BridgeEvent::TargetError ==> #[trigger] bridge.action(event)
                == BridgeAction::Nothing && bridge.after(event).measuring == bridge.measuring
                && bridge.after(event).uart == bridge.uart && bridge.after(event).rx_pin
                == bridge.rx_pin,
{
}

/// The hardware gets the rate, the data bits, the parity and the stop bits that the host
/// asks for, as far as it has them: other than 5 to 7 data bits are 8, mark and space
/// parity are none, and more than one stop bit is 2. What the host does not choose
/// stays as it is in `base`.
pub proof fn line_codings_are_applied(base: UartSettings, coding: LineCoding)
    ensures
        ({
            let r = line_settings(base, coding);
            &&& r.baudrate == coding.data_rate
            &&& r.data_bits == DataBits::DataBits5 <==> coding.data_bits == 5
            &&& r.data_bits == DataBits::DataBits6 <==> coding.data_bits == 6
            &&& r.data_bits == DataBits::DataBits7 <==> coding.data_bits == 7
            &&& r.parity == Parity::ParityOdd <==> coding.parity_type == ParityType::Odd
            &&& r.parity == Parity::ParityEven <==> coding.parity_type == ParityType::Even
            &&& r.stop_bits == HardwareStopBits::Stop1 <==> coding.stop_bits == StopBits::One
            &&& r.invert_tx == base.invert_tx && r.invert_rx == base.invert_rx
            &&& r.invert_rts == base.invert_rts && r.invert_cts == base.invert_cts
        }),
{
}

} // verus!
