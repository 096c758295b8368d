//! Human-readable form of a [`Topology`].
//!
//! The wire type uses fixed-capacity vectors; these structs use growable ones,
//! which map to TOML arrays-of-tables, and convert to and from the wire type
//! with explicit capacity checks.

use vstd::prelude::*;
use vstd::string::*;

use crate::config::{ProbeConfig, Topology, TopologySpec, UartConfig, MAX_PROBES, MAX_UARTS};
use crate::fixed_vec::{probe_slice, push_probe, push_uart, uart_slice};

verus! {

/// A full topology.
#[derive(Debug)]
pub struct TomlTopology {
    /// SWD probe instances, in USB interface order.
    pub probes: Vec<TomlProbe>,
    /// UART bridges, in CDC interface order.
    pub uarts: Vec<TomlUart>,
}

/// One SWD probe.
#[derive(Debug, Clone, Copy)]
pub struct TomlProbe {
    /// SWCLK GPIO number.
    pub swclk: u8,
    /// SWDIO GPIO number.
    pub swdio: u8,
    /// Optional nRESET GPIO number.
    pub reset: Option<u8>,
}

/// One UART bridge.
#[derive(Debug, Clone, Copy)]
pub struct TomlUart {
    /// TX GPIO number (probe to target).
    pub tx: u8,
    /// RX GPIO number (target to probe).
    pub rx: u8,
    /// Initial baud rate.
    pub baud: u32,
}

/// Why a readable topology does not fit the wire type.
#[derive(Debug, Clone, Copy, PartialEq, Eq, Structural)]
pub enum CapacityError {
    /// More probes than [`MAX_PROBES`].
    Probes,
    /// More UART bridges than [`MAX_UARTS`].
    Uarts,
}

impl TomlProbe {
    /// The probe as the wire type has it.
    pub open spec fn wire(self) -> ProbeConfig {
        ProbeConfig { swclk: self.swclk, swdio: self.swdio, reset: self.reset }
    }
}

impl TomlUart {
    /// The bridge as the wire type has it.
    pub open spec fn wire(self) -> UartConfig {
        UartConfig { tx: self.tx, rx: self.rx, baud: self.baud }
    }
}

impl View for TomlTopology {
    type V = TopologySpec;

    open spec fn view(&self) -> TopologySpec {
        TopologySpec {
            probes: self.probes@.map_values(|p: TomlProbe| p.wire()),
            uarts: self.uarts@.map_values(|u: TomlUart| u.wire()),
        }
    }
}

/// Whether a topology fits the capacities of the wire type; probes are counted first.
pub open spec fn capacity_verdict(topology: TopologySpec) -> Result<(), CapacityError> {
    if topology.probes.len() > MAX_PROBES {
        Err(CapacityError::Probes)
    } else if topology.uarts.len() > MAX_UARTS {
        Err(CapacityError::Uarts)
    } else {
        Ok(())
    }
}

/// What becomes of the topology `from` in the wire type.
pub open spec fn converts_to(from: TopologySpec, r: Result<Topology, CapacityError>) -> bool {
    match r {
        Ok(topology) => capacity_verdict(from) is Ok && topology@ == from,
        Err(e) => capacity_verdict(from) == Err::<(), CapacityError>(e),
    }
}

impl Default for TomlTopology {
    /// A topology without probes and bridges.
    fn default() -> (r: TomlTopology)
        ensures
            r@.probes.len() == 0,
            r@.uarts.len() == 0,
    {
        TomlTopology { probes: Vec::new(), uarts: Vec::new() }
    }
}

impl TomlTopology {
    /// Convert into the wire type, rejecting over-capacity inputs.
    pub fn into_topology(self) -> (r: Result<Topology, CapacityError>)
        ensures
            converts_to(self@, r),
    {
        let mut topo = Topology::default();
        let mut i: usize = 0;
        while i < self.probes.len()
            invariant
                i <= self.probes@.len(),
                i <= MAX_PROBES,
                topo@.probes == self@.probes.take(i as int),
                topo@.uarts == Seq::<UartConfig>::empty(),
            decreases self.probes@.len() - i,
        {
            let p: TomlProbe = self.probes[i];
            let probe = ProbeConfig { swclk: p.swclk, swdio: p.swdio, reset: p.reset };
            if push_probe(&mut topo.probes, probe).is_err() {
                return Err(CapacityError::Probes);
            }
            assert(self@.probes.take(i + 1) =~= self@.probes.take(i as int).push(probe));
            i = i + 1;
        }
        assert(self@.probes.take(i as int) =~= self@.probes);
        let mut j: usize = 0;
        while j < self.uarts.len()
            invariant
                j <= self.uarts@.len(),
                j <= MAX_UARTS,
                self.probes@.len() <= MAX_PROBES,
                topo@.probes == self@.probes,
                topo@.uarts == self@.uarts.take(j as int),
            decreases self.uarts@.len() - j,
        {
            let u: TomlUart = self.uarts[j];
            let uart = UartConfig { tx: u.tx, rx: u.rx, baud: u.baud };
            if push_uart(&mut topo.uarts, uart).is_err() {
                return Err(CapacityError::Uarts);
            }
            assert(self@.uarts.take(j + 1) =~= self@.uarts.take(j as int).push(uart));
            j = j + 1;
        }
        assert(self@.uarts.take(j as int) =~= self@.uarts);
        Ok(topo)
    }

    /// Build from the wire type.
    pub fn from_topology(topo: &Topology) -> (r: TomlTopology)
        ensures
            r@ == topo@,
            capacity_verdict(r@) is Ok,
    {
        let probes = probe_slice(&topo.probes);
        let uarts = uart_slice(&topo.uarts);
        let mut out = TomlTopology::default();
        let mut i: usize = 0;
        while i < probes.len()
            invariant
                i <= probes@.len(),
                out@.probes == probes@.take(i as int),
                out@.uarts.len() == 0,
            decreases probes@.len() - i,
        {
            let p: ProbeConfig = probes[i];
            let ghost before = out@.probes;
            out.probes.push(TomlProbe { swclk: p.swclk, swdio: p.swdio, reset: p.reset });
            assert(out@.probes =~= before.push(p));
            assert(probes@.take(i + 1) =~= probes@.take(i as int).push(p));
            i = i + 1;
        }
        assert(probes@.take(i as int) =~= probes@);
        let mut j: usize = 0;
        assert(out@.uarts =~= uarts@.take(0));
        while j < uarts.len()
            invariant
                j <= uarts@.len(),
                out@.probes == probes@,
                out@.uarts == uarts@.take(j as int),
            decreases uarts@.len() - j,
        {
            let u: UartConfig = uarts[j];
            let ghost before = out@.uarts;
            out.uarts.push(TomlUart { tx: u.tx, rx: u.rx, baud: u.baud });
            assert(out@.uarts =~= before.push(u));
            assert(uarts@.take(j + 1) =~= uarts@.take(j as int).push(u));
            j = j + 1;
        }
        assert(uarts@.take(j as int) =~= uarts@);
        out
    }
}

impl CapacityError {
    /// The error in words.
    pub open spec fn text(self) -> Seq<char> {
        match self {
            CapacityError::Probes => "too many probes (max 12)"@,
            CapacityError::Uarts => "too many uarts (max 2)"@,
        }
    }

    /// The error in words.
    pub fn message(&self) -> (r: String)
        ensures
            r@ == self.text(),
    {
        match self {
            CapacityError::Probes => String::from_str("too many probes (max 12)"),
            CapacityError::Uarts => String::from_str("too many uarts (max 2)"),
        }
    }
}

/// A topology that was put into readable form and converted again is the same topology.
pub proof fn topologies_read_back(
    topology: Topology,
    readable: TomlTopology,
    r: Result<Topology, CapacityError>,
)
    requires
        readable@ == topology@,
        capacity_verdict(readable@) is Ok,
        converts_to(readable@, r),
    ensures
        r matches Ok(back) && back@ == topology@,
{
}

/// A readable topology is converted exactly if it has at most twelve probes and two bridges;
/// too many probes are noticed first. Every probe and every bridge keeps its place and all of
/// its fields.
pub proof fn what_fits_is_converted(
    readable: TomlTopology,
    r: Result<Topology, CapacityError>,
    i: int,
)
    requires
        converts_to(readable@, r),
    ensures
        r is Ok <==> readable.probes@.len() <= 12 && readable.uarts@.len() <= 2,
        r matches Err(e) ==> (e == CapacityError::Probes <==> readable.probes@.len() > 12),
        r matches Ok(topology) ==> {
            &&& topology@.probes.len() == readable.probes@.len()
            &&& topology@.uarts.len() == readable.uarts@.len()
            &&& 0 <= i < readable.probes@.len() ==> topology@.probes[i].swclk
                == readable.probes@[i].swclk && topology@.probes[i].swdio
                == readable.probes@[i].swdio && topology@.probes[i].reset
                == readable.probes@[i].reset
            &&& 0 <= i < readable.uarts@.len() ==> topology@.uarts[i].tx == readable.uarts@[i].tx
                && topology@.uarts[i].rx == readable.uarts@[i].rx && topology@.uarts[i].baud
                == readable.uarts@[i].baud
        },
{
}

} // verus!
