//! pico-sdk compatible USB reset interface, so picotool can reboot the running
//! firmware.
//!
//! A vendor interface (class 0xFF, subclass 0x00, protocol 0x01, no endpoints)
//! answers two interface-directed vendor control requests:
//!
//! * [`RESET_REQUEST_BOOTSEL`]: reboot into the BOOTSEL bootloader. Bit 8 of the
//!   request value set means that the bits above name an activity-LED gpio; the
//!   low 7 bits are the bootrom interface-disable mask.
//! * [`RESET_REQUEST_FLASH`]: reboot back into the application.
//!
//! The last few requests offered to the interface are kept in a [`CtrlDiag`].

use vstd::prelude::*;

verus! {

/// Reboot into the BOOTSEL bootloader.
pub const RESET_REQUEST_BOOTSEL: u8 = 0x01;

/// Reboot back into the application.
pub const RESET_REQUEST_FLASH: u8 = 0x02;

/// Control requests that a [`CtrlDiag`] remembers.
pub const DIAG_ENTRIES: usize = 6;

/// Control request type.
#[derive(Debug, Clone, Copy, PartialEq, Eq, Structural)]
pub enum RequestType {
    /// A USB standard request.
    Standard,
    /// Intended for a USB class.
    Class,
    /// Vendor-specific.
    Vendor,
    /// Reserved.
    Reserved,
}

/// Control request recipient.
#[derive(Debug, Clone, Copy, PartialEq, Eq, Structural)]
pub enum Recipient {
    /// The entire device.
    Device,
    /// An interface; the index of the request is its number.
    Interface,
    /// An endpoint.
    Endpoint,
    /// None of the above.
    Other,
    /// Reserved.
    Reserved,
}

/// A control request read from a SETUP packet.
#[derive(Debug, Clone, Copy)]
pub struct ControlRequest {
    /// Type of the request.
    pub request_type: RequestType,
    /// Recipient of the request.
    pub recipient: Recipient,
    /// Request code.
    pub request: u8,
    /// Request value.
    pub value: u16,
    /// Request index.
    pub index: u16,
}

/// What to do about a control request.
#[derive(Debug, Clone, Copy, PartialEq, Eq, Structural)]
pub enum ResetAction {
    /// The request is not for the reset interface.
    NotOurs,
    /// Call the bootrom with this activity-LED mask and interface-disable mask. It
    /// returns only when it failed, and the request is then rejected.
    Bootsel {
        /// The activity-LED gpio as a mask, or 0.
        gpio_mask: u32,
        /// Bootrom interfaces to leave out.
        disable_mask: u32,
    },
    /// Arm the watchdog; the request is accepted when that worked.
    ArmWatchdog,
    /// Reject the request.
    Reject,
}

/// How a control request is answered.
#[derive(Debug, Clone, Copy, PartialEq, Eq, Structural)]
pub enum OutReply {
    /// The request was accepted.
    Accepted,
    /// The request was rejected.
    Rejected,
}

impl RequestType {
    /// The number that the USB specification gives the type.
    pub open spec fn code(self) -> u8 {
        match self {
            RequestType::Standard => 0,
            RequestType::Class => 1,
            RequestType::Vendor => 2,
            RequestType::Reserved => 3,
        }
    }

    fn to_code(self) -> (r: u8)
        ensures
            r == self.code(),
    {
        match self {
            RequestType::Standard => 0,
            RequestType::Class => 1,
            RequestType::Vendor => 2,
            RequestType::Reserved => 3,
        }
    }
}

impl Recipient {
    /// The number that the USB specification gives the recipient.
    pub open spec fn code(self) -> u8 {
        match self {
            Recipient::Device => 0,
            Recipient::Interface => 1,
            Recipient::Endpoint => 2,
            Recipient::Other => 3,
            Recipient::Reserved => 4,
        }
    }

    fn to_code(self) -> (r: u8)
        ensures
            r == self.code(),
    {
        match self {
            Recipient::Device => 0,
            Recipient::Interface => 1,
            Recipient::Endpoint => 2,
            Recipient::Other => 3,
            Recipient::Reserved => 4,
        }
    }
}

/// The gpio mask that the value of a BOOTSEL request asks for: the gpio in bits 9
/// and up, where bit 8 is set and a 32-bit mask has that gpio.
pub open spec fn activity_mask(value: u16) -> u32 {
    if value & 0x100 != 0 && value >> 9 < 32 {
        1u32 << (value >> 9)
    } else {
        0
    }
}

/// What interface number `itf` does about an OUT request.
pub open spec fn reset_action(itf: u8, req: ControlRequest) -> ResetAction {
    if req.request_type != RequestType::Vendor || req.recipient != Recipient::Interface || req.index
        != itf {
        ResetAction::NotOurs
    } else if req.request == RESET_REQUEST_BOOTSEL {
        ResetAction::Bootsel {
            gpio_mask: activity_mask(req.value),
            disable_mask: (req.value & 0x7f) as u32,
        }
    } else if req.request == RESET_REQUEST_FLASH {
        ResetAction::ArmWatchdog
    } else {
        ResetAction::Reject
    }
}

/// Decide about an OUT request offered to interface number `itf`.
pub fn control_out(itf: u8, req: &ControlRequest) -> (r: ResetAction)
    ensures
        r == reset_action(itf, *req),
{
    if req.request_type != RequestType::Vendor || req.recipient != Recipient::Interface || req.index
        != itf as u16 {
        return ResetAction::NotOurs;
    }
    match req.request {
        RESET_REQUEST_BOOTSEL => {
            let gpio: u16 = req.value >> 9;
            let gpio_mask: u32 = if req.value & 0x100 != 0 && gpio < 32 {
                1u32 << gpio
            } else {
                0
            };
            ResetAction::Bootsel { gpio_mask, disable_mask: (req.value & 0x7f) as u32 }
        },
        RESET_REQUEST_FLASH => ResetAction::ArmWatchdog,
        _ => ResetAction::Reject,
    }
}

/// The answer to a reboot request once the watchdog was armed, or could not be
/// because a reboot is already in flight.
pub fn watchdog_reply(armed: bool) -> (r: OutReply)
    ensures
        r == (if armed {
            OutReply::Accepted
        } else {
            OutReply::Rejected
        }),
{
    if armed {
        OutReply::Accepted
    } else {
        OutReply::Rejected
    }
}

/// `heapless::Deque`: a queue of at most `N` items, stored inline.
#[verifier::external_type_specification]
#[verifier::external_body]
#[verifier::reject_recursive_types(T)]
pub struct ExHeaplessDeque<T, const N: usize>(heapless::Deque<T, N>);

/// The entries that a queue holds, oldest first.
pub uninterp spec fn entries_held(d: heapless::Deque<[u8; 8], DIAG_ENTRIES>) -> Seq<[u8; 8]>;

/// `heapless::Deque::new`: a queue without entries.
#[verifier::external_body]
fn no_entries() -> (d: heapless::Deque<[u8; 8], DIAG_ENTRIES>)
    ensures
        entries_held(d) == Seq::<[u8; 8]>::empty(),
{
    heapless::Deque::new()
}

/// `heapless::Deque::is_full`: whether the queue is at its capacity.
#[verifier::external_body]
fn entries_full(d: &heapless::Deque<[u8; 8], DIAG_ENTRIES>) -> (r: bool)
    ensures
        r ==> entries_held(*d).len() == DIAG_ENTRIES,
        !r ==> entries_held(*d).len() < DIAG_ENTRIES,
{
    d.is_full()
}

/// `heapless::Deque::pop_front`: takes the oldest entry out, if there is one.
#[verifier::external_body]
fn pop_oldest(d: &mut heapless::Deque<[u8; 8], DIAG_ENTRIES>) -> (r: Option<[u8; 8]>)
    ensures
        r is Some == (entries_held(*old(d)).len() > 0),
        r matches Some(entry) ==> entry == entries_held(*old(d))[0],
        entries_held(*final(d)) == (if entries_held(*old(d)).len() > 0 {
            entries_held(*old(d)).skip(1)
        } else {
            entries_held(*old(d))
        }),
{
    d.pop_front()
}

/// `heapless::Deque::push_back`: appends an entry while there is room, and
/// otherwise leaves the queue alone and hands the entry back.
#[verifier::external_body]
fn push_newest(d: &mut heapless::Deque<[u8; 8], DIAG_ENTRIES>, entry: [u8; 8]) -> (r: Result<
    (),
    [u8; 8],
>)
    ensures
        r is Ok == (entries_held(*old(d)).len() < DIAG_ENTRIES),
        r is Ok ==> entries_held(*final(d)) == entries_held(*old(d)).push(entry),
        r matches Err(back) ==> back == entry && entries_held(*final(d)) == entries_held(*old(d)),
{
    d.push_back(entry)
}

/// `heapless::Deque::as_slices`: the entries in order, split over two slices, never
/// more than the capacity.
#[verifier::external_body]
fn entry_slices(d: &heapless::Deque<[u8; 8], DIAG_ENTRIES>) -> (r: (&[[u8; 8]], &[[u8; 8]]))
    ensures
        r.0@ + r.1@ == entries_held(*d),
        r.0@.len() + r.1@.len() <= DIAG_ENTRIES,
{
    d.as_slices()
}

/// The last few control requests that the reset interface was offered.
pub struct CtrlDiag {
    ring: heapless::Deque<[u8; 8], DIAG_ENTRIES>,
}

impl View for CtrlDiag {
    type V = Seq<Seq<u8>>;

    closed spec fn view(&self) -> Seq<Seq<u8>> {
        entries_held(self.ring).map_values(|entry: [u8; 8]| entry@)
    }
}

/// One entry: direction marker, type, recipient, code, value and index, the last
/// two with the low byte first.
pub open spec fn diag_entry(dir_in: bool, req: ControlRequest) -> Seq<u8> {
    seq![
        if dir_in { 0x1Bu8 } else { 0x0Bu8 },
        req.request_type.code(),
        req.recipient.code(),
        req.request,
        (req.value % 256) as u8,
        (req.value / 256) as u8,
        (req.index % 256) as u8,
        (req.index / 256) as u8,
    ]
}

/// The last [`DIAG_ENTRIES`] items of `s`.
pub open spec fn newest(s: Seq<Seq<u8>>) -> Seq<Seq<u8>> {
    if s.len() > DIAG_ENTRIES {
        s.skip(s.len() - DIAG_ENTRIES)
    } else {
        s
    }
}

/// The bytes of the entries, one after the other.
pub open spec fn entry_bytes(entries: Seq<Seq<u8>>) -> Seq<u8>
    decreases entries.len(),
{
    if entries.len() == 0 {
        Seq::empty()
    } else {
        entry_bytes(entries.drop_last()) + entries.last()
    }
}

impl CtrlDiag {
    /// No request yet.
    pub fn new() -> (r: CtrlDiag)
        ensures
            r@ == Seq::<Seq<u8>>::empty(),
    {
        let diag = CtrlDiag { ring: no_entries() };
        assert(diag@ =~= Seq::<Seq<u8>>::empty());
        diag
    }

    /// Remember a request; the oldest goes when there are too many.
    pub fn record(&mut self, dir_in: bool, req: &ControlRequest)
        ensures
            final(self)@ == newest(old(self)@.push(diag_entry(dir_in, *req))),
    {
        let marker: u8 = if dir_in {
            0x1B
        } else {
            0x0B
        };
        let entry: [u8; 8] = [
            marker,
            req.request_type.to_code(),
            req.recipient.to_code(),
            req.request,
            (req.value % 256) as u8,
            (req.value / 256) as u8,
            (req.index % 256) as u8,
            (req.index / 256) as u8,
        ];
        assert(entry@ =~= diag_entry(dir_in, *req));
        let ghost before = self@;
        if entries_full(&self.ring) {
            let _ = pop_oldest(&mut self.ring);
        }
        let _ = push_newest(&mut self.ring, entry);
        assert(self@ =~= newest(before.push(entry@)));
    }

    /// How many requests are remembered, and their bytes, oldest first.
    pub fn dump(&self) -> (r: (u8, Vec<u8>))
        ensures
            r.0 == self@.len() <= DIAG_ENTRIES,
            r.1@ == entry_bytes(self@),
            r.1@.len() == 8 * self@.len(),
    {
        let (older, newer) = entry_slices(&self.ring);
        let n: usize = older.len() + newer.len();
        let mut out: Vec<u8> = Vec::new();
        let mut i: usize = 0;
        assert(self@.take(0) =~= Seq::empty());
        while i < n
            invariant
                i <= n <= DIAG_ENTRIES,
                n == older@.len() + newer@.len(),
                self@ == (older@ + newer@).map_values(|entry: [u8; 8]| entry@),
                out@ == entry_bytes(self@.take(i as int)),
                out@.len() == 8 * i,
            decreases n - i,
        {
            let entry: [u8; 8] = if i < older.len() {
                older[i]
            } else {
                newer[i - older.len()]
            };
            assert(entry@ == self@[i as int]);
            assert(self@.take(i + 1).drop_last() =~= self@.take(i as int));
            let ghost before = out@;
            let mut k: usize = 0;
            while k < 8
                invariant
                    k <= 8,
                    out@ == before + entry@.take(k as int),
                decreases 8 - k,
            {
                out.push(entry[k]);
                assert(out@ =~= before + entry@.take(k + 1));
                k = k + 1;
            }
            assert(entry@.take(8) =~= entry@);
            i = i + 1;
        }
        assert(self@.take(n as int) =~= self@);
        (n as u8, out)
    }
}

/// The interface answers vendor requests to its own number and no others. A BOOTSEL request
/// names the activity LED in bits 9 and up of its value, where bit 8 is set and there
/// is a bit for it, and the interfaces to leave out in the low seven bits. Of the other
/// requests only that for a reboot is served.
pub proof fn reset_requests_are_understood(itf: u8, req: ControlRequest, k: u32)
    requires
        k < 32,
    ensures
        reset_action(itf, req) == ResetAction::NotOurs <==> !(req.request_type == RequestType::Vendor
            && req.recipient == Recipient::Interface && req.index == itf),
        reset_action(itf, req) != ResetAction::NotOurs ==> {
            &&& req.request == 1 ==> (reset_action(itf, req) matches ResetAction::Bootsel {
                gpio_mask,
                disable_mask,
            } && disable_mask == req.value % 128 && ((gpio_mask >> k) & 1u32 == 1 <==> (req.value
                / 256) % 2 == 1 && req.value / 512 == k))
            &&& req.request == 2 ==> reset_action(itf, req) == ResetAction::ArmWatchdog
            &&& req.request != 1 && req.request != 2 ==> reset_action(itf, req)
                == ResetAction::Reject
        },
{
    let value = req.value;
    assert(value & 0x7f == value % 128) by (bit_vector);
    assert((value & 0x100 != 0) == ((value / 256) % 2 == 1)) by (bit_vector);
    assert(value >> 9 == value / 512) by (bit_vector);
    let gpio: u16 = value >> 9;
    assert(k < 32 && gpio < 32 ==> (((1u32 << gpio) >> k) & 1u32 == 1 <==> gpio == k))
        by (bit_vector);
    assert(k < 32 ==> (0u32 >> k) & 1u32 == 0) by (bit_vector);
}

/// An entry has eight bytes, from which direction, type, recipient, code, value and index
/// of the request can be told.
pub proof fn entries_tell_the_request(dir_in: bool, req: ControlRequest)
    ensures
        ({
            let entry = diag_entry(dir_in, req);
            &&& entry.len() == 8
            &&& entry[0] == 0x1B <==> dir_in
            &&& entry[0] == 0x0B <==> !dir_in
            &&& entry[1] == 0 <==> req.request_type == RequestType::Standard
            &&& entry[1] == 1 <==> req.request_type == RequestType::Class
            &&& entry[1] == 2 <==> req.request_type == RequestType::Vendor
            &&& entry[1] <= 3
            &&& entry[2] == 0 <==> req.recipient == Recipient::Device
            &&& entry[2] == 1 <==> req.recipient == Recipient::Interface
            &&& entry[2] == 2 <==> req.recipient == Recipient::Endpoint
            &&& entry[2] == 3 <==> req.recipient == Recipient::Other
            &&& entry[2] <= 4
            &&& entry[3] == req.request
            &&& entry[4] + 256 * entry[5] == req.value
            &&& entry[6] + 256 * entry[7] == req.index
        }),
{
}

/// Of the requests that were recorded the last six are kept, in order, and no others.
pub proof fn the_last_six_are_kept(entries: Seq<Seq<u8>>, i: int)
    ensures
        newest(entries).len() <= 6,
        entries.len() <= 6 ==> newest(entries) == entries,
        entries.len() > 6 ==> newest(entries).len() == 6,
        0 <= i < newest(entries).len() ==> newest(entries)[newest(entries).len() - 1 - i]
            == entries[entries.len() - 1 - i],
{
}

/// The bytes of entries of eight bytes each: byte `k` of entry `i` is byte `8i + k`.
pub proof fn entries_are_dumped_in_order(entries: Seq<Seq<u8>>, i: int, k: int)
    requires
        forall|j: int| 0 <= j < entries.len() ==> (#[trigger] entries[j]).len() == 8,
        0 <= i < entries.len(),
        0 <= k < 8,
    ensures
        entry_bytes(entries).len() == 8 * entries.len(),
        entry_bytes(entries)[8 * i + k] == entries[i][k],
    decreases entries.len(),
{
    reveal_with_fuel(entry_bytes, 2);
    let shorter = entries.drop_last();
    assert(entries[entries.len() - 1] == entries.last());
    assert forall|j: int| 0 <= j < shorter.len() implies (#[trigger] shorter[j]).len() == 8 by {
        assert(shorter[j] == entries[j]);
    }
    if i < entries.len() - 1 {
        entries_are_dumped_in_order(shorter, i, k);
    } else if shorter.len() > 0 {
        entries_are_dumped_in_order(shorter, 0, 0);
    }
}

} // verus!
