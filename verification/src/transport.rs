//! Which USB device, interface and endpoints to talk to.
//!
//! Config commands ride on the vendor-bulk CMSIS-DAP interfaces: one request packet
//! out, one response packet in. The devices, as the operating system reports them,
//! are handed in as plain values.

use vstd::prelude::*;
use vstd::string::*;

use crate::text::chars_of;

verus! {

/// USB vendor id (shared with the Raspberry Pi debugprobe).
pub const VID: u16 = 0x2E8A;

/// USB product id.
pub const PID: u16 = 0x000C;

/// Substring identifying a CMSIS-DAP interface in its interface string.
pub const DAP_MARKER: &'static str = "CMSIS-DAP";

/// One interface of a USB device.
#[derive(Debug, PartialEq, Eq)]
pub struct InterfaceInfo {
    /// Interface number.
    pub number: u8,
    /// Interface string, if it has one.
    pub string: Option<String>,
}

/// One USB device.
#[derive(Debug, PartialEq, Eq)]
pub struct DeviceInfo {
    /// Vendor id.
    pub vendor_id: u16,
    /// Product id.
    pub product_id: u16,
    /// Serial number, if reported.
    pub serial: Option<String>,
    /// Product string, if reported.
    pub product: Option<String>,
    /// The interfaces, in the order in which they are reported.
    pub interfaces: Vec<InterfaceInfo>,
}

/// One endpoint of an interface.
#[derive(Debug, Clone, Copy, PartialEq, Eq, Structural)]
pub struct EndpointInfo {
    /// It is a bulk endpoint.
    pub bulk: bool,
    /// It carries data to the host.
    pub input: bool,
    /// Its address.
    pub address: u8,
}

/// Why no device was selected.
#[derive(Debug, Clone, Copy, PartialEq, Eq, Structural)]
pub enum FindError {
    /// No device has the serial that was asked for.
    NoSuchSerial,
    /// There is no device.
    NoDevice,
    /// There are this many devices, and no serial was asked for.
    Ambiguous(usize),
}

/// `part` stands somewhere in `whole`.
pub open spec fn contains_text(whole: Seq<char>, part: Seq<char>) -> bool {
    exists|i: int|
        0 <= i && i + part.len() <= whole.len() && #[trigger] whole.subrange(i, i + part.len())
            == part
}

/// An interface is one of the probe's CMSIS-DAP interfaces.
pub open spec fn is_dap(iface: InterfaceInfo) -> bool {
    iface.string matches Some(s) && contains_text(s@, DAP_MARKER@)
}

/// A device is a probe.
pub open spec fn is_probe(device: DeviceInfo) -> bool {
    device.vendor_id == VID && device.product_id == PID
}

/// The positions of the probes among the first `n` devices.
pub open spec fn probe_positions(devices: Seq<DeviceInfo>, n: int) -> Seq<usize>
    decreases n,
{
    if n <= 0 {
        Seq::empty()
    } else if is_probe(devices[n - 1]) {
        probe_positions(devices, n - 1).push((n - 1) as usize)
    } else {
        probe_positions(devices, n - 1)
    }
}

/// A device reports the serial `serial`.
pub open spec fn has_serial(device: DeviceInfo, serial: Seq<char>) -> bool {
    device.serial matches Some(s) && s@ == serial
}

/// Whether the two texts are the same.
fn same_text(a: &str, b: &str) -> (r: bool)
    ensures
        r == (a@ == b@),
{
    let x = chars_of(a);
    let y = chars_of(b);
    if x.len() != y.len() {
        return false;
    }
    let mut i: usize = 0;
    while i < x.len()
        invariant
            i <= x@.len() == y@.len(),
            x@ == a@,
            y@ == b@,
            x@.take(i as int) == y@.take(i as int),
        decreases x@.len() - i,
    {
        if x[i] != y[i] {
            assert(x@[i as int] != y@[i as int]);
            return false;
        }
        i = i + 1;
        assert(x@.take(i as int) =~= y@.take(i as int));
    }
    assert(x@ =~= x@.take(i as int));
    assert(y@ =~= y@.take(i as int));
    true
}

/// Whether `part` stands at position `at` of `whole`.
fn stands_at(whole: &Vec<char>, part: &Vec<char>, at: usize) -> (r: bool)
    requires
        at + part@.len() <= whole@.len(),
    ensures
        r == (whole@.subrange(at as int, at + part@.len()) == part@),
{
    let len: usize = whole.len();
    let mut i: usize = 0;
    while i < part.len()
        invariant
            i <= part@.len(),
            at + part@.len() <= whole@.len() == len,
            forall|k: int| 0 <= k < i ==> whole@[at + k] == #[trigger] part@[k],
        decreases part@.len() - i,
    {
        if whole[at + i] != part[i] {
            assert(whole@.subrange(at as int, at + part@.len())[i as int] != part@[i as int]);
            return false;
        }
        i = i + 1;
    }
    assert(whole@.subrange(at as int, at + part@.len()) =~= part@);
    true
}

/// True if `iface` is one of the probe's CMSIS-DAP interfaces.
pub fn is_dap_interface(iface: &InterfaceInfo) -> (r: bool)
    ensures
        r == is_dap(*iface),
{
    match &iface.string {
        None => false,
        Some(string) => {
            let whole = chars_of(string.as_str());
            let part = chars_of(DAP_MARKER);
            if whole.len() < part.len() {
                return false;
            }
            let mut at: usize = 0;
            while at <= whole.len() - part.len()
                invariant
                    part@.len() <= whole@.len(),
                    part@ == DAP_MARKER@,
                    iface.string matches Some(s) && s@ == whole@,
                    at <= whole@.len() - part@.len() + 1,
                    forall|i: int|
                        0 <= i < at && i + part@.len() <= whole@.len() ==> #[trigger] whole@.subrange(
                            i,
                            i + part@.len(),
                        ) != part@,
                decreases whole@.len() - at + 1,
            {
                if stands_at(&whole, &part, at) {
                    return true;
                }
                if at == whole.len() - part.len() {
                    return false;
                }
                at = at + 1;
            }
            false
        },
    }
}

/// The positions of the probes among the attached devices (matched by VID:PID).
pub fn list_devices(devices: &Vec<DeviceInfo>) -> (r: Vec<usize>)
    ensures
        r@ == probe_positions(devices@, devices@.len() as int),
{
    let mut out: Vec<usize> = Vec::new();
    let mut i: usize = 0;
    while i < devices.len()
        invariant
            i <= devices@.len(),
            out@ == probe_positions(devices@, i as int),
        decreases devices@.len() - i,
    {
        if devices[i].vendor_id == VID && devices[i].product_id == PID {
            out.push(i);
        }
        i = i + 1;
    }
    out
}

/// What [`find_device`] selects: with a serial, the first probe that reports it;
/// without one, the only probe.
pub open spec fn found(devices: Seq<DeviceInfo>, serial: Option<Seq<char>>, r: Result<
    usize,
    FindError,
>) -> bool {
    let probes = probe_positions(devices, devices.len() as int);
    match serial {
        Some(serial) => match r {
            Ok(at) => exists|k: int|
                #![trigger probes[k]]
                0 <= k < probes.len() && probes[k] == at && has_serial(devices[at as int], serial)
                    && forall|j: int|
                    0 <= j < k ==> !has_serial(devices[#[trigger] probes[j] as int], serial),
            Err(e) => e == FindError::NoSuchSerial && forall|j: int|
                0 <= j < probes.len() ==> !has_serial(
                    devices[#[trigger] probes[j] as int],
                    serial,
                ),
        },
        None => r == if probes.len() == 0 {
            Err(FindError::NoDevice)
        } else if probes.len() == 1 {
            Ok(probes[0])
        } else {
            Err(FindError::Ambiguous(probes.len() as usize))
        },
    }
}

/// The positions are those of devices.
proof fn lemma_positions(devices: Seq<DeviceInfo>, n: int)
    requires
        0 <= n <= devices.len() <= usize::MAX,
    ensures
        forall|k: int|
            0 <= k < probe_positions(devices, n).len() ==> (#[trigger] probe_positions(
                devices,
                n,
            )[k]) < n && is_probe(devices[probe_positions(devices, n)[k] as int]),
        probe_positions(devices, n).len() <= n,
    decreases n,
{
    if n > 0 {
        lemma_positions(devices, n - 1);
        let shorter = probe_positions(devices, n - 1);
        assert forall|k: int| 0 <= k < probe_positions(devices, n).len() implies (
        #[trigger] probe_positions(devices, n)[k]) < n && is_probe(
            devices[probe_positions(devices, n)[k] as int],
        ) by {
            if k < shorter.len() {
                assert(probe_positions(devices, n)[k] == shorter[k]);
            }
        }
    }
}

/// Select a single device, optionally by serial number; the result is its position
/// among `devices`.
pub fn find_device(devices: &Vec<DeviceInfo>, serial: Option<&str>) -> (r: Result<usize, FindError>)
    ensures
        found(
            devices@,
            match serial {
                Some(s) => Some(s@),
                None => None,
            },
            r,
        ),
        r matches Ok(at) ==> at < devices@.len() && is_probe(devices@[at as int]),
{
    let count: usize = devices.len();
    let probes = list_devices(devices);
    proof {
        assert(count == devices@.len());
        lemma_positions(devices@, devices@.len() as int);
    }
    match serial {
        Some(s) => {
            let mut k: usize = 0;
            while k < probes.len()
                invariant
                    k <= probes@.len(),
                    serial == Some(s),
                    probes@ == probe_positions(devices@, devices@.len() as int),
                    forall|j: int|
                        0 <= j < probes@.len() ==> (#[trigger] probes@[j]) < devices@.len()
                            && is_probe(devices@[probes@[j] as int]),
                    forall|j: int|
                        0 <= j < k ==> !has_serial(devices@[#[trigger] probes@[j] as int], s@),
                decreases probes@.len() - k,
            {
                let at: usize = probes[k];
                assert(probes@[k as int] == at);
                if let Some(own) = &devices[at].serial {
                    if same_text(own.as_str(), s) {
                        assert(probe_positions(devices@, devices@.len() as int)[k as int] == at);
                        assert(has_serial(devices@[at as int], s@));
                        return Ok(at);
                    }
                }
                k = k + 1;
            }
            Err(FindError::NoSuchSerial)
        },
        None => if probes.len() == 0 {
            Err(FindError::NoDevice)
        } else if probes.len() == 1 {
            assert(probes@[0] < devices@.len());
            Ok(probes[0])
        } else {
            Err(FindError::Ambiguous(probes.len()))
        },
    }
}

/// A summary of a discovered device.
#[derive(Debug, PartialEq, Eq)]
pub struct DeviceSummary {
    /// Device serial number (`"<uid>:0"`), if reported.
    pub serial: Option<String>,
    /// USB product string.
    pub product: Option<String>,
    /// Interface numbers whose string marks them as CMSIS-DAP.
    pub dap_interfaces: Vec<u8>,
}

/// The numbers of the CMSIS-DAP interfaces among the first `n`.
pub open spec fn dap_numbers(interfaces: Seq<InterfaceInfo>, n: int) -> Seq<u8>
    decreases n,
{
    if n <= 0 {
        Seq::empty()
    } else if is_dap(interfaces[n - 1]) {
        dap_numbers(interfaces, n - 1).push(interfaces[n - 1].number)
    } else {
        dap_numbers(interfaces, n - 1)
    }
}

/// The characters of an optional text.
pub open spec fn text_of(s: Option<String>) -> Option<Seq<char>> {
    match s {
        Some(s) => Some(s@),
        None => None,
    }
}

/// A copy of an optional text.
fn copy_text(s: &Option<String>) -> (r: Option<String>)
    ensures
        text_of(r) == text_of(*s),
{
    match s {
        Some(s) => Some(s.clone()),
        None => None,
    }
}

/// The numbers of the CMSIS-DAP interfaces.
fn dap_interface_numbers(interfaces: &Vec<InterfaceInfo>) -> (r: Vec<u8>)
    ensures
        r@ == dap_numbers(interfaces@, interfaces@.len() as int),
{
    let mut out: Vec<u8> = Vec::new();
    let mut i: usize = 0;
    while i < interfaces.len()
        invariant
            i <= interfaces@.len(),
            out@ == dap_numbers(interfaces@, i as int),
        decreases interfaces@.len() - i,
    {
        if is_dap_interface(&interfaces[i]) {
            out.push(interfaces[i].number);
        }
        i = i + 1;
    }
    out
}

/// Summarize a device without opening it.
pub fn summarize(info: &DeviceInfo) -> (r: DeviceSummary)
    ensures
        text_of(r.serial) == text_of(info.serial),
        text_of(r.product) == text_of(info.product),
        r.dap_interfaces@ == dap_numbers(info.interfaces@, info.interfaces@.len() as int),
{
    DeviceSummary {
        serial: copy_text(&info.serial),
        product: copy_text(&info.product),
        dap_interfaces: dap_interface_numbers(&info.interfaces),
    }
}

/// What is claimed among the interfaces for config commands.
pub open spec fn claimed(interfaces: Seq<InterfaceInfo>, r: Option<u8>) -> bool {
    let numbers = dap_numbers(interfaces, interfaces.len() as int);
    match r {
        Some(lowest) => numbers.contains(lowest) && forall|i: int|
            0 <= i < numbers.len() ==> lowest <= #[trigger] numbers[i],
        None => numbers.len() == 0,
    }
}

/// The interface to claim for config commands. They are served on any probe
/// interface, so it is the lowest-numbered CMSIS-DAP interface; `None` without one.
pub fn config_interface(info: &DeviceInfo) -> (r: Option<u8>)
    ensures
        claimed(info.interfaces@, r),
{
    let numbers = dap_interface_numbers(&info.interfaces);
    if numbers.len() == 0 {
        return None;
    }
    let mut lowest: u8 = numbers[0];
    let mut i: usize = 1;
    assert(numbers@[0] == lowest);
    while i < numbers.len()
        invariant
            1 <= i <= numbers@.len(),
            numbers@.contains(lowest),
            forall|k: int| 0 <= k < i ==> lowest <= #[trigger] numbers@[k],
        decreases numbers@.len() - i,
    {
        if numbers[i] < lowest {
            lowest = numbers[i];
            assert(numbers@[i as int] == lowest);
        }
        i = i + 1;
    }
    Some(lowest)
}

/// The address of the first bulk endpoint of one direction, from endpoint `i` on.
pub open spec fn first_bulk(endpoints: Seq<EndpointInfo>, input: bool, i: int) -> Option<u8>
    decreases endpoints.len() - i,
{
    if i < 0 || i >= endpoints.len() {
        None
    } else if endpoints[i].bulk && endpoints[i].input == input {
        Some(endpoints[i].address)
    } else {
        first_bulk(endpoints, input, i + 1)
    }
}

/// The addresses of the first bulk OUT and the first bulk IN endpoint, if there are both.
pub open spec fn bulk_pair(endpoints: Seq<EndpointInfo>) -> Option<(u8, u8)> {
    match (first_bulk(endpoints, false, 0), first_bulk(endpoints, true, 0)) {
        (Some(out), Some(inn)) => Some((out, inn)),
        _ => None,
    }
}

/// Find the (bulk OUT, bulk IN) endpoint addresses of an interface; `None` if it
/// lacks one of them.
pub fn bulk_endpoints(endpoints: &Vec<EndpointInfo>) -> (r: Option<(u8, u8)>)
    ensures
        r == bulk_pair(endpoints@),
{
    let mut ep_out: Option<u8> = None;
    let mut ep_in: Option<u8> = None;
    let mut i: usize = 0;
    while i < endpoints.len()
        invariant
            i <= endpoints@.len(),
            first_bulk(endpoints@, false, 0) == if ep_out is Some {
                ep_out
            } else {
                first_bulk(endpoints@, false, i as int)
            },
            first_bulk(endpoints@, true, 0) == if ep_in is Some {
                ep_in
            } else {
                first_bulk(endpoints@, true, i as int)
            },
        decreases endpoints@.len() - i,
    {
        let ep: EndpointInfo = endpoints[i];
        if ep.bulk {
            if ep.input {
                if ep_in.is_none() {
                    ep_in = Some(ep.address);
                }
            } else {
                if ep_out.is_none() {
                    ep_out = Some(ep.address);
                }
            }
        }
        i = i + 1;
    }
    match (ep_out, ep_in) {
        (Some(out), Some(inn)) => Some((out, inn)),
        _ => None,
    }
}

/// Probes are the devices 2E8A:000C, and their positions are listed in ascending order, each
/// once.
pub proof fn probes_are_listed_in_order(devices: Seq<DeviceInfo>, n: int)
    requires
        0 <= n <= devices.len() <= usize::MAX,
    ensures
        ({
            let all = probe_positions(devices, n);
            &&& forall|i: int|
                #![trigger devices[i]]
                0 <= i < n ==> (all.contains(i as usize) <==> devices[i].vendor_id == 0x2E8A
                    && devices[i].product_id == 0x000C)
            &&& forall|k: int| 0 <= k < all.len() ==> #[trigger] all[k] < n
            &&& forall|j: int, k: int| 0 <= j < k < all.len() ==> all[j] < all[k]
        }),
    decreases n,
{
    if n > 0 {
        probes_are_listed_in_order(devices, n - 1);
        let shorter = probe_positions(devices, n - 1);
        let all = probe_positions(devices, n);
        if is_probe(devices[n - 1]) {
            assert(all == shorter.push((n - 1) as usize));
            assert(all[shorter.len() as int] == (n - 1) as usize);
            assert forall|x: usize| all.contains(x) <==> shorter.contains(x) || x == n - 1 by {
                if shorter.contains(x) {
                    let k = choose|k: int| 0 <= k < shorter.len() && shorter[k] == x;
                    assert(all[k] == x);
                }
                if all.contains(x) {
                    let k = choose|k: int| 0 <= k < all.len() && all[k] == x;
                    if k < shorter.len() {
                        assert(shorter[k] == x);
                    }
                }
            }
        }
        assert forall|i: int| #![trigger devices[i]] 0 <= i < n implies (all.contains(i as usize)
            <==> devices[i].vendor_id == 0x2E8A && devices[i].product_id == 0x000C) by {
            if i == n - 1 && shorter.contains(i as usize) {
                let k = choose|k: int| 0 <= k < shorter.len() && shorter[k] == i as usize;
                assert(shorter[k] < n - 1);
            }
        }
    }
}

/// With a serial, the device that is selected is the first among the probes to report it,
/// and none is selected only if no probe does.
pub proof fn serials_select_the_first(
    devices: Seq<DeviceInfo>,
    serial: Seq<char>,
    r: Result<usize, FindError>,
)
    requires
        devices.len() <= usize::MAX,
        found(devices, Some(serial), r),
    ensures
        match r {
            Ok(at) => at < devices.len() && is_probe(devices[at as int])
                && devices[at as int].serial is Some && devices[at as int].serial->Some_0@ == serial
                && forall|i: int|
                #![trigger devices[i]]
                0 <= i < at && is_probe(devices[i]) ==> !(devices[i].serial matches Some(s) && s@
                    == serial),
            Err(e) => e == FindError::NoSuchSerial && forall|i: int|
                #![trigger devices[i]]
                0 <= i < devices.len() && is_probe(devices[i]) ==> !(
                devices[i].serial matches Some(s) && s@ == serial),
        },
{
    let n = devices.len() as int;
    let all = probe_positions(devices, n);
    probes_are_listed_in_order(devices, n);
    lemma_positions(devices, n);
    let upto = match r {
        Ok(at) => at as int,
        Err(_) => n,
    };
    assert forall|i: int|
        #![trigger devices[i]]
        0 <= i < upto && is_probe(devices[i]) implies !(devices[i].serial matches Some(s) && s@
        == serial) by {
        let j = choose|j: int| 0 <= j < all.len() && all[j] == i as usize;
        assert(all[j] == i);
        if let Ok(at) = r {
            let k = choose|k: int|
                #![trigger all[k]]
                0 <= k < all.len() && all[k] == at && has_serial(devices[at as int], serial)
                    && forall|j: int|
                    0 <= j < k ==> !has_serial(devices[#[trigger] all[j] as int], serial);
            assert(all[k] == at);
            assert(j < k);
        }
        assert(!has_serial(devices[all[j] as int], serial));
    }
}

/// Without a serial, a device is selected exactly if it is the only probe; otherwise the
/// error says whether there are none or how many there are.
pub proof fn the_only_probe_is_selected(devices: Seq<DeviceInfo>, r: Result<usize, FindError>)
    requires
        devices.len() <= usize::MAX,
        found(devices, None, r),
    ensures
        match r {
            Ok(at) => at < devices.len() && forall|i: int|
                #![trigger devices[i]]
                0 <= i < devices.len() ==> (is_probe(devices[i]) <==> i == at),
            Err(FindError::NoDevice) => forall|i: int|
                #![trigger devices[i]]
                0 <= i < devices.len() ==> !is_probe(devices[i]),
            Err(FindError::Ambiguous(count)) => count >= 2 && count == probe_positions(
                devices,
                devices.len() as int,
            ).len(),
            Err(FindError::NoSuchSerial) => false,
        },
{
    let n = devices.len() as int;
    let all = probe_positions(devices, n);
    probes_are_listed_in_order(devices, n);
    lemma_positions(devices, n);
    if all.len() == 1 {
        assert(all[0] < n);
        assert forall|i: int| #![trigger devices[i]] 0 <= i < n implies (is_probe(devices[i])
            <==> i == all[0]) by {
            if is_probe(devices[i]) {
                let j = choose|j: int| 0 <= j < all.len() && all[j] == i as usize;
                assert(j == 0);
            }
        }
    }
}

/// The numbers of the CMSIS-DAP interfaces stand at the positions that are handed back: these
/// ascend, and hold every interface whose string has the marker and no other.
pub proof fn dap_interfaces_are_listed_in_order(interfaces: Seq<InterfaceInfo>, n: int) -> (at: Seq<
    int,
>)
    requires
        0 <= n <= interfaces.len(),
    ensures
        ({
            let numbers = dap_numbers(interfaces, n);
            &&& at.len() == numbers.len()
            &&& forall|k: int|
                #![trigger at[k]]
                0 <= k < at.len() ==> 0 <= at[k] < n && numbers[k] == interfaces[at[k]].number
                    && is_dap(interfaces[at[k]])
            &&& forall|j: int, k: int| 0 <= j < k < at.len() ==> at[j] < at[k]
            &&& forall|i: int|
                #![trigger interfaces[i]]
                0 <= i < n && is_dap(interfaces[i]) ==> at.contains(i)
        }),
    decreases n,
{
    if n == 0 {
        Seq::empty()
    } else {
        let before = dap_interfaces_are_listed_in_order(interfaces, n - 1);
        if is_dap(interfaces[n - 1]) {
            let at = before.push(n - 1);
            assert forall|i: int|
                #![trigger interfaces[i]]
                0 <= i < n && is_dap(interfaces[i]) implies at.contains(i) by {
                if i == n - 1 {
                    assert(at[before.len() as int] == i);
                } else {
                    let k = choose|k: int| 0 <= k < before.len() && before[k] == i;
                    assert(at[k] == i);
                }
            }
            at
        } else {
            before
        }
    }
}

/// An interface is a CMSIS-DAP one exactly if those nine characters stand somewhere in its
/// string.
pub proof fn dap_interfaces_carry_the_marker(iface: InterfaceInfo)
    ensures
        is_dap(iface) <==> (iface.string matches Some(s) && exists|i: int|
            0 <= i && i + 9 <= s@.len() && #[trigger] s@.subrange(i, i + 9) == "CMSIS-DAP"@),
{
    reveal_strlit("CMSIS-DAP");
    assert("CMSIS-DAP"@.len() == 9);
    if is_dap(iface) {
        let s = iface.string->Some_0@;
        let i = choose|i: int|
            0 <= i && i + DAP_MARKER@.len() <= s.len() && #[trigger] s.subrange(
                i,
                i + DAP_MARKER@.len(),
            ) == DAP_MARKER@;
        assert(s.subrange(i, i + 9) == "CMSIS-DAP"@);
    }
    if iface.string matches Some(s) && exists|i: int|
        0 <= i && i + 9 <= s@.len() && #[trigger] s@.subrange(i, i + 9) == "CMSIS-DAP"@ {
        let s = iface.string->Some_0@;
        let i = choose|i: int|
            0 <= i && i + 9 <= s.len() && #[trigger] s.subrange(i, i + 9) == "CMSIS-DAP"@;
        assert(s.subrange(i, i + DAP_MARKER@.len()) == DAP_MARKER@);
    }
}

/// What [`first_bulk`] finds from endpoint `from` on.
proof fn lemma_first_bulk(endpoints: Seq<EndpointInfo>, input: bool, from: int)
    requires
        0 <= from <= endpoints.len(),
    ensures
        match first_bulk(endpoints, input, from) {
            Some(address) => exists|i: int|
                #![trigger endpoints[i]]
                from <= i < endpoints.len() && endpoints[i].bulk && endpoints[i].input == input
                    && endpoints[i].address == address && forall|j: int|
                    #![trigger endpoints[j]]
                    from <= j < i ==> !(endpoints[j].bulk && endpoints[j].input == input),
            None => forall|j: int|
                #![trigger endpoints[j]]
                from <= j < endpoints.len() ==> !(endpoints[j].bulk && endpoints[j].input
                    == input),
        },
    decreases endpoints.len() - from,
{
    if from < endpoints.len() && !(endpoints[from].bulk && endpoints[from].input == input) {
        lemma_first_bulk(endpoints, input, from + 1);
        if let Some(address) = first_bulk(endpoints, input, from + 1) {
            let i = choose|i: int|
                #![trigger endpoints[i]]
                from + 1 <= i < endpoints.len() && endpoints[i].bulk && endpoints[i].input == input
                    && endpoints[i].address == address && forall|j: int|
                    #![trigger endpoints[j]]
                    from + 1 <= j < i ==> !(endpoints[j].bulk && endpoints[j].input == input);
            assert(endpoints[i].bulk);
        }
    } else if from < endpoints.len() {
        assert(endpoints[from].bulk);
    }
}

/// An interface can be used exactly if it has a bulk endpoint of either direction; the
/// first of each is, the OUT endpoint being named first.
pub proof fn the_first_bulk_endpoints_are_used(endpoints: Seq<EndpointInfo>)
    ensures
        bulk_pair(endpoints) is Some <==> (exists|i: int|
            #![trigger endpoints[i]]
            0 <= i < endpoints.len() && endpoints[i].bulk && endpoints[i].input) && (exists|i: int|
            #![trigger endpoints[i]]
            0 <= i < endpoints.len() && endpoints[i].bulk && !endpoints[i].input),
        bulk_pair(endpoints) matches Some((out, inn)) ==> (exists|i: int|
            #![trigger endpoints[i]]
            0 <= i < endpoints.len() && endpoints[i].bulk && !endpoints[i].input
                && endpoints[i].address == out && forall|j: int|
                #![trigger endpoints[j]]
                0 <= j < i ==> !(endpoints[j].bulk && !endpoints[j].input)) && (exists|i: int|
            #![trigger endpoints[i]]
            0 <= i < endpoints.len() && endpoints[i].bulk && endpoints[i].input
                && endpoints[i].address == inn && forall|j: int|
                #![trigger endpoints[j]]
                0 <= j < i ==> !(endpoints[j].bulk && endpoints[j].input)),
{
    lemma_first_bulk(endpoints, false, 0);
    lemma_first_bulk(endpoints, true, 0);
}

/// The CMSIS-DAP interface with the lowest number is claimed, and none only if there is no
/// such interface.
pub proof fn the_lowest_dap_interface_is_claimed(interfaces: Seq<InterfaceInfo>, r: Option<u8>)
    requires
        claimed(interfaces, r),
    ensures
        r is Some <==> exists|i: int| 0 <= i < interfaces.len() && is_dap(#[trigger] interfaces[i]),
        r matches Some(lowest) ==> (exists|i: int|
            #![trigger interfaces[i]]
            0 <= i < interfaces.len() && is_dap(interfaces[i]) && interfaces[i].number == lowest)
            && (forall|i: int|
            #![trigger interfaces[i]]
            0 <= i < interfaces.len() && is_dap(interfaces[i]) ==> lowest <= interfaces[i].number),
{
    let n = interfaces.len() as int;
    let numbers = dap_numbers(interfaces, n);
    let at = dap_interfaces_are_listed_in_order(interfaces, n);
    if let Some(lowest) = r {
        let k = choose|k: int| 0 <= k < numbers.len() && numbers[k] == lowest;
        assert(is_dap(interfaces[at[k]]));
        assert forall|i: int|
            #![trigger interfaces[i]]
            0 <= i < interfaces.len() && is_dap(interfaces[i]) implies lowest
            <= interfaces[i].number by {
            let j = choose|j: int| 0 <= j < at.len() && at[j] == i;
            assert(numbers[j] == interfaces[at[j]].number);
        }
    } else {
        assert forall|i: int| 0 <= i < n implies !is_dap(#[trigger] interfaces[i]) by {
            if is_dap(interfaces[i]) {
                let j = choose|j: int| 0 <= j < at.len() && at[j] == i;
            }
        }
    }
}

} // verus!
