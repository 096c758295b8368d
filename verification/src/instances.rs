//! Which PIO state machine and which pins each probe of a topology gets.
//!
//! Probe N is driven by state machine N % 4 of PIO block N / 4. [`PinTable`]
//! hands out the GPIOs by number, each at most once, and [`build_engines`] claims
//! the pins of all probes and says what to instantiate where.

use vstd::prelude::*;

use crate::bits;
use crate::config;
use crate::config::{BoardProfile, ChipLimits, ProbeConfig, Topology, TopologySpec, MAX_PROBES};
use crate::fixed_vec::probe_slice;

verus! {

/// State machines in each PIO block.
pub const SMS_PER_BLOCK: usize = 4;

/// GPIOs that can be claimed.
pub const TABLE_PINS: u8 = 30;

/// One state machine of one PIO block.
#[derive(Debug, Clone, Copy, PartialEq, Eq, Structural)]
pub struct Slot {
    /// PIO block.
    pub block: usize,
    /// State machine within the block.
    pub sm: usize,
}

/// The GPIOs that are not claimed yet.
pub struct PinTable {
    free: u64,
}

impl View for PinTable {
    type V = Set<u8>;

    closed spec fn view(&self) -> Set<u8> {
        bits::pin_set(self.free)
    }
}

impl PinTable {
    /// A table with every GPIO free.
    pub fn new() -> (r: PinTable)
        ensures
            forall|pin: u8| #[trigger] r@.contains(pin) <==> pin < TABLE_PINS,
    {
        let r = PinTable { free: 0x3FFF_FFFF };
        assert forall|pin: u8| #[trigger] r@.contains(pin) <==> pin < TABLE_PINS by {
            assert(pin < 64 ==> ((0x3FFF_FFFFu64 & (1u64 << pin) != 0) == (pin < 30)))
                by (bit_vector);
        }
        r
    }

    /// Take `n` out of the table.
    fn take(&mut self, n: u8)
        requires
            old(self)@.contains(n),
        ensures
            final(self)@ == old(self)@.remove(n),
    {
        let one: u64 = 1u64 << n;
        assert forall|pin: u8| bits::has_pin(self.free & !one, pin) == (bits::has_pin(
            self.free,
            pin,
        ) && pin != n) by {
            bits::lemma_minus_pins(self.free, one, pin);
            assert(n < 64 && pin < 64 ==> ((1u64 << n) & (1u64 << pin) != 0) == (pin == n))
                by (bit_vector);
        }
        self.free = self.free & !one;
        assert(self@ =~= old(self)@.remove(n));
    }

    /// Claim a pin for PIO use.
    pub fn claim_pio(&mut self, n: u8) -> (r: u8)
        requires
            old(self)@.contains(n),
        ensures
            r == n,
            final(self)@ == old(self)@.remove(n),
    {
        self.take(n);
        n
    }

    /// Claim a pin for plain GPIO use.
    pub fn claim_gpio(&mut self, n: u8) -> (r: u8)
        requires
            old(self)@.contains(n),
        ensures
            r == n,
            final(self)@ == old(self)@.remove(n),
    {
        self.take(n);
        n
    }

    /// Whether pin `n` can still be claimed.
    pub fn is_free(&self, n: u8) -> (r: bool)
        ensures
            r == self@.contains(n),
    {
        n < 64 && self.free & (1u64 << n) != 0
    }
}

/// What to instantiate for one probe: its state machine and its pins.
#[derive(Debug, Clone, Copy, PartialEq, Eq)]
pub struct EnginePlan {
    /// Where the engine runs.
    pub slot: Slot,
    /// Clock pin.
    pub swclk: u8,
    /// Data pin.
    pub swdio: u8,
    /// Optional open-drain reset pin.
    pub reset: Option<u8>,
}

/// Where probe `n` runs.
pub open spec fn slot_of(n: int) -> (int, int) {
    (n / 4, n % 4)
}

/// Where probe `n` runs.
pub fn probe_slot(n: usize) -> (r: Slot)
    ensures
        (r.block as int, r.sm as int) == slot_of(n as int),
{
    Slot { block: n / SMS_PER_BLOCK, sm: n % SMS_PER_BLOCK }
}

/// The probes of `n_probes` that run on PIO block `block`: from the first number up
/// to, not including, the second. `None` if the block is not used.
pub fn block_probes(n_probes: usize, block: usize) -> (r: Option<(usize, usize)>)
    requires
        n_probes <= MAX_PROBES,
    ensures
        r is Some <==> exists|n: int|
            0 <= n < n_probes && #[trigger] slot_of(n).0 == block,
        r matches Some((start, end)) ==> forall|n: int|
            start <= n < end <==> 0 <= n < n_probes && #[trigger] slot_of(n).0 == block,
{
    if block >= MAX_PROBES || n_probes <= SMS_PER_BLOCK * block {
        return None;
    }
    let start: usize = SMS_PER_BLOCK * block;
    assert(slot_of(start as int).0 == block);
    let end: usize = if n_probes < start + SMS_PER_BLOCK {
        n_probes
    } else {
        start + SMS_PER_BLOCK
    };
    Some((start, end))
}

/// The plans for the first `n` of `probes`.
pub open spec fn plans(probes: Seq<ProbeConfig>, n: int) -> Seq<EnginePlan> {
    Seq::new(
        n as nat,
        |i: int|
            EnginePlan {
                slot: Slot { block: slot_of(i).0 as usize, sm: slot_of(i).1 as usize },
                swclk: probes[i].swclk,
                swdio: probes[i].swdio,
                reset: probes[i].reset,
            },
    )
}

/// How many of `probes` fit on `blocks` PIO blocks.
pub open spec fn fitting(probes: Seq<ProbeConfig>, blocks: usize) -> int {
    if probes.len() < 4 * blocks {
        probes.len() as int
    } else {
        4 * blocks
    }
}

/// Every pin of `pins` is free, and none occurs twice.
pub open spec fn claimable(free: Set<u8>, pins: Seq<u8>) -> bool {
    &&& forall|i: int| 0 <= i < pins.len() ==> free.contains(#[trigger] pins[i])
    &&& forall|i: int, j: int| 0 <= i < j < pins.len() ==> pins[i] != pins[j]
}

/// Claiming the pins of `pins` one after the other.
pub open spec fn without(free: Set<u8>, pins: Seq<u8>) -> Set<u8> {
    free.difference(pins.to_set())
}

/// Claiming one more pin.
proof fn lemma_without_push(free: Set<u8>, pins: Seq<u8>, pin: u8)
    ensures
        without(free, pins.push(pin)) == without(free, pins).remove(pin),
{
    assert forall|p: u8| pins.push(pin).contains(p) <==> pins.contains(p) || p == pin by {
        if pins.contains(p) {
            let i = choose|i: int| 0 <= i < pins.len() && pins[i] == p;
            assert(pins.push(pin)[i] == p);
        }
        if p == pin {
            assert(pins.push(pin)[pins.len() as int] == p);
        }
    }
    assert(without(free, pins.push(pin)) =~= without(free, pins).remove(pin));
}

/// The next pin is free when the earlier ones are claimed.
proof fn lemma_next_free(free: Set<u8>, pins: Seq<u8>, n: int)
    requires
        claimable(free, pins),
        0 <= n < pins.len(),
    ensures
        without(free, pins.take(n)).contains(pins[n]),
        without(free, pins.take(n + 1)) == without(free, pins.take(n)).remove(pins[n]),
{
    if pins.take(n).contains(pins[n]) {
        let i = choose|i: int| 0 <= i < n && pins.take(n)[i] == pins[n];
        assert(pins[i] != pins[n]);
    }
    assert(pins.take(n + 1) =~= pins.take(n).push(pins[n]));
    lemma_without_push(free, pins.take(n), pins[n]);
}

/// Claim the pins of one probe, which stand at position `at` of `all`.
fn claim_probe(
    pins: &mut PinTable,
    probe: &ProbeConfig,
    Ghost(free): Ghost<Set<u8>>,
    Ghost(all): Ghost<Seq<u8>>,
    Ghost(at): Ghost<int>,
) -> (r: (u8, u8, Option<u8>))
    requires
        claimable(free, all),
        0 <= at,
        at + config::probe_pins(*probe).len() <= all.len(),
        all.subrange(at, at + config::probe_pins(*probe).len()) == config::probe_pins(*probe),
        old(pins)@ == without(free, all.take(at)),
    ensures
        r == (probe.swclk, probe.swdio, probe.reset),
        final(pins)@ == without(free, all.take(at + config::probe_pins(*probe).len())),
{
    let ghost mine = config::probe_pins(*probe);
    assert(forall|i: int| 0 <= i < mine.len() ==> all[at + i] == #[trigger] mine[i]);
    proof {
        assert(mine[0] == probe.swclk);
        assert(mine[1] == probe.swdio);
        lemma_next_free(free, all, at);
        lemma_next_free(free, all, at + 1);
    }
    let swclk = pins.claim_pio(probe.swclk);
    let swdio = pins.claim_pio(probe.swdio);
    let reset = match probe.reset {
        Some(n) => {
            proof {
                assert(mine[2] == n);
                lemma_next_free(free, all, at + 2);
            }
            Some(pins.claim_gpio(n))
        },
        None => None,
    };
    (swclk, swdio, reset)
}

/// The pins of the first `n + 1` probes are those of the first `n`, then those of
/// probe `n`, and stand at the start of the pins of all.
proof fn lemma_pins_at(probes: Seq<ProbeConfig>, n: int, k: int)
    requires
        0 <= n < k <= probes.len(),
    ensures
        ({
            let at = config::probes_pins(probes.take(n)).len() as int;
            let all = config::probes_pins(probes.take(k));
            let next = config::probes_pins(probes.take(n + 1));
            &&& next.len() == at + config::probe_pins(probes[n]).len()
            &&& next.len() <= all.len()
            &&& all.take(next.len() as int) == next
            &&& all.take(at) == config::probes_pins(probes.take(n))
            &&& all.subrange(at, next.len() as int) == config::probe_pins(probes[n])
        }),
    decreases k,
{
    let all = config::probes_pins(probes.take(k));
    let before = config::probes_pins(probes.take(n));
    let next = config::probes_pins(probes.take(n + 1));
    assert(probes.take(n + 1).drop_last() =~= probes.take(n));
    assert(next == before + config::probe_pins(probes[n]));
    if k == n + 1 {
        assert(all.take(next.len() as int) =~= next);
        assert(all.take(before.len() as int) =~= before);
    } else {
        lemma_pins_at(probes, n, k - 1);
        let shorter = config::probes_pins(probes.take(k - 1));
        assert(probes.take(k).drop_last() =~= probes.take(k - 1));
        assert(all == shorter + config::probe_pins(probes[k - 1]));
        assert(all.take(next.len() as int) =~= shorter.take(next.len() as int));
        assert(all.take(before.len() as int) =~= shorter.take(before.len() as int));
    }
    assert(all.subrange(before.len() as int, next.len() as int) =~= config::probe_pins(probes[n]))
        by {
        let mine = config::probe_pins(probes[n]);
        assert forall|i: int| 0 <= i < mine.len() implies all[before.len() + i] == mine[i] by {
            assert(all.take(next.len() as int)[before.len() + i] == next[before.len() + i]);
        }
    }
}

/// Claim the pins of every probe that fits on `blocks` PIO blocks, and say what
/// to instantiate, in probe order.
pub fn build_engines(topo: &Topology, blocks: usize, pins: &mut PinTable) -> (r: Vec<EnginePlan>)
    requires
        claimable(
            old(pins)@,
            config::probes_pins(topo@.probes.take(fitting(topo@.probes, blocks))),
        ),
    ensures
        r@ == plans(topo@.probes, fitting(topo@.probes, blocks)),
        final(pins)@ == without(
            old(pins)@,
            config::probes_pins(topo@.probes.take(fitting(topo@.probes, blocks))),
        ),
{
    let probes = probe_slice(&topo.probes);
    let ghost free = pins@;
    let n: usize = if blocks >= MAX_PROBES || probes.len() < SMS_PER_BLOCK * blocks {
        probes.len()
    } else {
        SMS_PER_BLOCK * blocks
    };
    let ghost all = config::probes_pins(probes@.take(n as int));
    let mut out: Vec<EnginePlan> = Vec::new();
    let mut i: usize = 0;
    assert(all.take(0) =~= Seq::<u8>::empty());
    assert(without(free, all.take(0)) =~= free);
    assert(probes@.take(0) =~= Seq::<ProbeConfig>::empty());
    while i < n
        invariant
            i <= n <= probes@.len(),
            n == fitting(probes@, blocks),
            claimable(free, all),
            all == config::probes_pins(probes@.take(n as int)),
            pins@ == without(free, all.take(config::probes_pins(probes@.take(i as int)).len() as int)),
            out@ == plans(probes@, i as int),
        decreases n - i,
    {
        proof {
            lemma_pins_at(probes@, i as int, n as int);
        }
        let (swclk, swdio, reset) = claim_probe(
            pins,
            &probes[i],
            Ghost(free),
            Ghost(all),
            Ghost(config::probes_pins(probes@.take(i as int)).len() as int),
        );
        out.push(EnginePlan { slot: probe_slot(i), swclk, swdio, reset });
        i = i + 1;
        assert(out@ =~= plans(probes@, i as int));
    }
    assert(all.take(all.len() as int) =~= all);
    out
}

/// On a chip whose GPIOs are all in the table, and whose PIO blocks have four state
/// machines each, every pin of an accepted topology can be claimed: building never
/// fails, it builds an engine for every probe on a PIO block that exists, and it
/// leaves the pins of the bridges free.
pub proof fn accepted_topologies_can_be_built(
    topology: TopologySpec,
    chip: ChipLimits,
    profile: BoardProfile,
    free: Set<u8>,
)
    requires
        topology.verdict(chip, profile) is Ok,
        chip.gpio_count <= TABLE_PINS,
        chip.sms_per_block == SMS_PER_BLOCK,
        forall|pin: u8| #[trigger] free.contains(pin) <==> pin < TABLE_PINS,
    ensures
        fitting(topology.probes, chip.pio_blocks as usize) == topology.probes.len(),
        forall|n: int|
            0 <= n < topology.probes.len() ==> (#[trigger] slot_of(n)).0 < chip.pio_blocks,
        claimable(free, config::probes_pins(topology.probes)),
        claimable(
            without(free, config::probes_pins(topology.probes)),
            config::uarts_pins(topology.uarts),
        ),
{
    config::accepted_topologies(topology, chip, profile);
    assert(chip.pio_blocks * chip.sms_per_block == 4 * chip.pio_blocks) by (nonlinear_arith)
        requires
            chip.sms_per_block == 4,
    ;
    let own = config::probes_pins(topology.probes);
    let bridges = config::uarts_pins(topology.uarts);
    let pins = topology.pins();
    assert(pins == own + bridges);
    assert(forall|i: int| 0 <= i < own.len() ==> own[i] == pins[i]);
    assert(forall|i: int| 0 <= i < bridges.len() ==> bridges[i] == pins[own.len() + i]);
    assert forall|i: int| 0 <= i < own.len() implies free.contains(#[trigger] own[i]) by {
        assert(pins[i] < chip.gpio_count);
    }
    assert forall|i: int| 0 <= i < bridges.len() implies without(free, own).contains(
        #[trigger] bridges[i],
    ) by {
        assert(pins[own.len() + i] < chip.gpio_count);
        if own.contains(bridges[i]) {
            let j = choose|j: int| 0 <= j < own.len() && own[j] == bridges[i];
            assert(pins[j] != pins[own.len() + i]);
        }
    }
}

/// No two probes share a state machine.
pub proof fn probes_have_slots_of_their_own(m: int, n: int)
    requires
        0 <= m,
        0 <= n,
        slot_of(m) == slot_of(n),
    ensures
        m == n,
{
}

/// Probe N runs on state machine N % 4 of block N / 4, with the pins of its own
/// configuration; every probe up to four for each block gets an engine.
pub proof fn engines_get_the_pins_of_their_probe(probes: Seq<ProbeConfig>, blocks: usize, n: int)
    requires
        0 <= n < probes.len(),
        probes.len() <= usize::MAX,
    ensures
        ({
            let all = plans(probes, fitting(probes, blocks));
            &&& all.len() <= probes.len()
            &&& all.len() <= 4 * blocks
            &&& all.len() == probes.len() || all.len() == 4 * blocks
            &&& n < all.len() ==> {
                &&& 4 * all[n].slot.block + all[n].slot.sm == n
                &&& all[n].slot.sm < 4
                &&& all[n].swclk == probes[n].swclk
                &&& all[n].swdio == probes[n].swdio
                &&& all[n].reset == probes[n].reset
            }
        }),
{
}

/// Building takes exactly the pins that the fields of the probes name out of the table.
pub proof fn building_claims_the_named_pins(free: Set<u8>, probes: Seq<ProbeConfig>, pin: u8)
    ensures
        without(free, config::probes_pins(probes)).contains(pin) <==> free.contains(pin) && forall|
            i: int,
        |
            0 <= i < probes.len() ==> (#[trigger] probes[i]).swclk != pin && probes[i].swdio != pin
                && probes[i].reset != Some(pin),
{
    config::probes_have_the_pins_of_their_fields(probes, pin);
}

} // verus!
