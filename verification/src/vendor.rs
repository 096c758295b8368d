//! Probe side of the config protocol (CMSIS-DAP vendor commands 0x80..=0x9F).
//!
//! Commands arrive on any probe's DAP interface; all of them share one
//! [`ConfigService`]. See [`crate::protocol`] for the wire format. Writing to
//! flash is left to the caller: [`ConfigService::handle`] asks for it, and the
//! answer is made once the outcome is known.

use vstd::prelude::*;

use crate::bytes::{append_range, copy_range};
use crate::config::{BoardProfile, ChipLimits, Topology, TopologySpec};
use crate::protocol::{
    FirmwareInfo, CMD_BOOTSEL, CMD_COMMIT, CMD_CTRL_DIAG, CMD_GET_PROFILE, CMD_GET_TOPOLOGY,
    CMD_INFO, CMD_REBOOT, CMD_SET_PROFILE, CMD_SET_TOPOLOGY, PACKET_SIZE, STATUS_ERR_BAD_REQUEST,
    STATUS_ERR_DECODE, STATUS_ERR_FLASH, STATUS_ERR_INVALID, STATUS_OK, TOPOLOGY_BUF_LEN,
};
use crate::reset_iface;
use crate::reset_iface::CtrlDiag;
use crate::wire;
use crate::wire::{
    info_to_bytes, profile_from_bytes, profile_to_bytes, topology_from_bytes, topology_to_bytes,
};

verus! {

/// Max payload bytes per GET_TOPOLOGY response chunk (64-byte packet minus cmd,
/// status, total_len).
pub const GET_CHUNK: usize = 61;

/// What the DAP task should do after sending the response.
#[derive(Debug, Clone, Copy, PartialEq, Eq, Structural)]
pub enum AfterResponse {
    /// Nothing.
    Nothing,
    /// Reset the probe.
    Reboot,
    /// Reboot into the BOOTSEL bootloader.
    Bootsel,
}

/// State behind the config protocol.
pub struct ConfigService {
    staged: Vec<u8>,
    info: FirmwareInfo,
    active: Topology,
    limits: ChipLimits,
    profile: BoardProfile,
}

/// What a command leads to.
pub enum ServiceStep {
    /// Send this response, then do what `after` says.
    Reply {
        /// The response packet.
        response: Vec<u8>,
        /// What follows the response.
        after: AfterResponse,
    },
    /// Write this topology to flash, then answer with [`ConfigService::topology_stored`].
    StoreTopology(Topology),
    /// Write this profile to flash, then answer with [`ConfigService::profile_stored`].
    StoreProfile(BoardProfile),
}

/// The contents of a [`ConfigService`].
#[verifier::ext_equal]
pub struct ServiceSpec {
    /// The topology bytes staged so far.
    pub staged: Seq<u8>,
    /// What `CMD_INFO` reports.
    pub info: FirmwareInfo,
    /// The booted topology.
    pub active: TopologySpec,
    /// The limits of the chip.
    pub limits: ChipLimits,
    /// The board profile that topologies are held to.
    pub profile: BoardProfile,
}

/// The contents of a [`ServiceStep`].
pub enum StepSpec {
    /// Send this response, then do what `after` says.
    Reply {
        /// The response packet.
        response: Seq<u8>,
        /// What follows the response.
        after: AfterResponse,
    },
    /// Write this topology to flash.
    StoreTopology(TopologySpec),
    /// Write this profile to flash.
    StoreProfile(BoardProfile),
}

impl View for ConfigService {
    type V = ServiceSpec;

    closed spec fn view(&self) -> ServiceSpec {
        ServiceSpec {
            staged: self.staged@,
            info: self.info,
            active: self.active@,
            limits: self.limits,
            profile: self.profile,
        }
    }
}

impl View for ServiceStep {
    type V = StepSpec;

    open spec fn view(&self) -> StepSpec {
        match self {
            ServiceStep::Reply { response, after } => StepSpec::Reply {
                response: response@,
                after: *after,
            },
            ServiceStep::StoreTopology(topology) => StepSpec::StoreTopology(topology@),
            ServiceStep::StoreProfile(profile) => StepSpec::StoreProfile(*profile),
        }
    }
}

/// A response of a command byte and a status.
pub open spec fn status_reply(cmd: u8, status: u8) -> StepSpec {
    StepSpec::Reply { response: seq![cmd, status], after: AfterResponse::Nothing }
}

/// A response with a payload.
pub open spec fn payload_reply(cmd: u8, payload: Seq<u8>) -> StepSpec {
    StepSpec::Reply { response: seq![cmd, STATUS_OK] + payload, after: AfterResponse::Nothing }
}

/// The number of bytes of an encoding that one GET response carries from `offset` on.
pub open spec fn chunk_len(total: int, offset: int) -> int {
    if total - offset < GET_CHUNK {
        total - offset
    } else {
        GET_CHUNK as int
    }
}

impl ServiceSpec {
    /// The answer to `CMD_GET_TOPOLOGY`.
    pub open spec fn get_topology(self, request: Seq<u8>) -> StepSpec {
        let encoded = wire::topology_encoding(self.active);
        let offset = if request.len() > 1 {
            request[1] as int
        } else {
            0
        };
        if offset > encoded.len() {
            status_reply(request[0], STATUS_ERR_BAD_REQUEST)
        } else {
            payload_reply(
                request[0],
                seq![encoded.len() as u8] + encoded.subrange(
                    offset,
                    offset + chunk_len(encoded.len() as int, offset),
                ),
            )
        }
    }

    /// What `CMD_SET_TOPOLOGY` stages, and its answer. A chunk at offset 0 starts
    /// over; any other chunk has to follow the bytes staged before.
    pub open spec fn set_topology(self, request: Seq<u8>) -> (Seq<u8>, StepSpec) {
        if request.len() < 2 {
            (self.staged, status_reply(request[0], STATUS_ERR_BAD_REQUEST))
        } else {
            let before = if request[1] == 0 {
                Seq::empty()
            } else {
                self.staged
            };
            let data = request.skip(2);
            if request[1] != before.len() || before.len() + data.len() > TOPOLOGY_BUF_LEN {
                (before, status_reply(request[0], STATUS_ERR_BAD_REQUEST))
            } else {
                (before + data, status_reply(request[0], STATUS_OK))
            }
        }
    }

    /// What `CMD_COMMIT` leads to: the staged bytes have to be as many as the
    /// request says, decode, and be a valid topology.
    pub open spec fn commit(self, request: Seq<u8>) -> StepSpec {
        if request.len() < 2 || self.staged.len() != request[1] {
            status_reply(request[0], STATUS_ERR_BAD_REQUEST)
        } else {
            match wire::topology_decoding(self.staged, usize::BITS as nat) {
                None => status_reply(request[0], STATUS_ERR_DECODE),
                Some(topology) => if topology.verdict(self.limits, self.profile) is Err {
                    status_reply(request[0], STATUS_ERR_INVALID)
                } else {
                    StepSpec::StoreTopology(topology)
                },
            }
        }
    }

    /// What `CMD_SET_PROFILE` leads to.
    pub open spec fn set_profile(self, request: Seq<u8>) -> StepSpec {
        match wire::profile_decoding(request.skip(1)) {
            None => status_reply(request[0], STATUS_ERR_DECODE),
            Some(profile) => if profile.verdict(self.limits) is Err {
                status_reply(request[0], STATUS_ERR_INVALID)
            } else {
                StepSpec::StoreProfile(profile)
            },
        }
    }

    /// The service once writing `profile` to flash was tried.
    pub open spec fn holding(self, profile: BoardProfile, stored: bool) -> ServiceSpec {
        if stored {
            ServiceSpec { profile, ..self }
        } else {
            self
        }
    }

    /// The bytes staged after a command, and what the command leads to.
    pub open spec fn handle(self, request: Seq<u8>, diag: Seq<Seq<u8>>) -> (Seq<u8>, StepSpec) {
        let cmd = request[0];
        if cmd == CMD_INFO {
            (self.staged, payload_reply(cmd, wire::info_encoding(self.info)))
        } else if cmd == CMD_GET_TOPOLOGY {
            (self.staged, self.get_topology(request))
        } else if cmd == CMD_SET_TOPOLOGY {
            self.set_topology(request)
        } else if cmd == CMD_COMMIT {
            (self.staged, self.commit(request))
        } else if cmd == CMD_REBOOT {
            (
                self.staged,
                StepSpec::Reply { response: seq![cmd, STATUS_OK], after: AfterResponse::Reboot },
            )
        } else if cmd == CMD_BOOTSEL {
            (
                self.staged,
                StepSpec::Reply { response: seq![cmd, STATUS_OK], after: AfterResponse::Bootsel },
            )
        } else if cmd == CMD_GET_PROFILE {
            (self.staged, payload_reply(cmd, wire::profile_encoding(self.profile)))
        } else if cmd == CMD_SET_PROFILE {
            (self.staged, self.set_profile(request))
        } else if cmd == CMD_CTRL_DIAG {
            (
                self.staged,
                payload_reply(cmd, seq![diag.len() as u8] + reset_iface::entry_bytes(diag)),
            )
        } else {
            (self.staged, status_reply(cmd, STATUS_ERR_BAD_REQUEST))
        }
    }
}

/// The answer to a command that wrote to flash, once the write was tried.
pub open spec fn stored_reply(cmd: u8, stored: bool) -> Seq<u8> {
    seq![
        cmd,
        if stored {
            STATUS_OK
        } else {
            STATUS_ERR_FLASH
        },
    ]
}

/// A response of a command byte and a status.
fn reply(cmd: u8, status: u8) -> (r: ServiceStep)
    ensures
        r@ == status_reply(cmd, status),
{
    let response: Vec<u8> = vec![cmd, status];
    assert(response@ =~= seq![cmd, status]);
    ServiceStep::Reply { response, after: AfterResponse::Nothing }
}

/// A successful response with a payload.
fn reply_with(cmd: u8, payload: &Vec<u8>) -> (r: ServiceStep)
    ensures
        r@ == payload_reply(cmd, payload@),
{
    let mut response: Vec<u8> = vec![cmd, STATUS_OK];
    append_range(&mut response, payload.as_slice(), 0, payload.len());
    assert(response@ =~= seq![cmd, STATUS_OK] + payload@);
    ServiceStep::Reply { response, after: AfterResponse::Nothing }
}

impl ConfigService {
    /// A service with nothing staged.
    pub fn new(
        info: FirmwareInfo,
        active: Topology,
        limits: ChipLimits,
        profile: BoardProfile,
    ) -> (r: ConfigService)
        ensures
            r@ == (ServiceSpec { staged: Seq::empty(), info, active: active@, limits, profile }),
    {
        ConfigService { staged: Vec::new(), info, active, limits, profile }
    }

    /// Handle a vendor command. Every response fits a packet and echoes the command.
    pub fn handle(&mut self, request: &[u8], diag: &CtrlDiag) -> (step: ServiceStep)
        requires
            request@.len() > 0,
        ensures
            step@ matches StepSpec::Reply { response, .. } ==> 2 <= response.len() <= PACKET_SIZE
                && response[0] == request@[0],
            step@ == old(self)@.handle(request@, diag@).1,
            final(self)@ == (ServiceSpec {
                staged: old(self)@.handle(request@, diag@).0,
                ..old(self)@
            }),
    {
        let cmd: u8 = request[0];
        match cmd {
            CMD_INFO => match info_to_bytes(&self.info) {
                Ok(payload) => reply_with(cmd, &payload),
                Err(_) => reply(cmd, STATUS_ERR_BAD_REQUEST),
            },
            CMD_GET_TOPOLOGY => self.get_topology(request),
            CMD_SET_TOPOLOGY => self.set_topology(request),
            CMD_COMMIT => self.commit(request),
            CMD_REBOOT => {
                let response: Vec<u8> = vec![cmd, STATUS_OK];
                assert(response@ =~= seq![cmd, STATUS_OK]);
                ServiceStep::Reply { response, after: AfterResponse::Reboot }
            },
            CMD_BOOTSEL => {
                let response: Vec<u8> = vec![cmd, STATUS_OK];
                assert(response@ =~= seq![cmd, STATUS_OK]);
                ServiceStep::Reply { response, after: AfterResponse::Bootsel }
            },
            CMD_GET_PROFILE => match profile_to_bytes(&self.profile) {
                Ok(payload) => reply_with(cmd, &payload),
                Err(_) => reply(cmd, STATUS_ERR_BAD_REQUEST),
            },
            CMD_SET_PROFILE => self.set_profile(request),
            CMD_CTRL_DIAG => {
                let (count, entries) = diag.dump();
                let mut payload: Vec<u8> = vec![count];
                append_range(&mut payload, entries.as_slice(), 0, entries.len());
                assert(payload@ =~= seq![count] + entries@);
                reply_with(cmd, &payload)
            },
            _ => reply(cmd, STATUS_ERR_BAD_REQUEST),
        }
    }

    fn get_topology(&self, request: &[u8]) -> (step: ServiceStep)
        requires
            request@.len() > 0,
        ensures
            step@ == self@.get_topology(request@),
    {
        let encoded: Vec<u8> = match topology_to_bytes(&self.active) {
            Ok(encoded) => encoded,
            Err(_) => {
                return reply(request[0], STATUS_ERR_DECODE);
            },
        };
        let offset: usize = if request.len() > 1 {
            request[1] as usize
        } else {
            0
        };
        if offset > encoded.len() {
            return reply(request[0], STATUS_ERR_BAD_REQUEST);
        }
        let left: usize = encoded.len() - offset;
        let chunk: usize = if left < GET_CHUNK {
            left
        } else {
            GET_CHUNK
        };
        let mut payload: Vec<u8> = vec![encoded.len() as u8];
        append_range(&mut payload, encoded.as_slice(), offset, offset + chunk);
        assert(payload@ =~= seq![encoded@.len() as u8] + encoded@.subrange(
            offset as int,
            offset + chunk,
        ));
        reply_with(request[0], &payload)
    }

    fn set_topology(&mut self, request: &[u8]) -> (step: ServiceStep)
        requires
            request@.len() > 0,
        ensures
            step@ == old(self)@.set_topology(request@).1,
            final(self)@ == (ServiceSpec {
                staged: old(self)@.set_topology(request@).0,
                ..old(self)@
            }),
    {
        if request.len() < 2 {
            return reply(request[0], STATUS_ERR_BAD_REQUEST);
        }
        let offset: u8 = request[1];
        if offset == 0 {
            self.staged = Vec::new();
        }
        assert(self.staged@ =~= if offset == 0 {
            Seq::empty()
        } else {
            old(self)@.staged
        });
        let filled: usize = self.staged.len();
        let size: usize = request.len() - 2;
        if offset as usize != filled || filled > TOPOLOGY_BUF_LEN || size > TOPOLOGY_BUF_LEN
            - filled {
            return reply(request[0], STATUS_ERR_BAD_REQUEST);
        }
        assert(request@.subrange(2, request@.len() as int) =~= request@.skip(2));
        append_range(&mut self.staged, request, 2, request.len());
        reply(request[0], STATUS_OK)
    }

    fn commit(&self, request: &[u8]) -> (step: ServiceStep)
        requires
            request@.len() > 0,
        ensures
            step@ == self@.commit(request@),
    {
        if request.len() < 2 || self.staged.len() != request[1] as usize {
            return reply(request[0], STATUS_ERR_BAD_REQUEST);
        }
        let topology: Topology = match topology_from_bytes(self.staged.as_slice()) {
            Ok(topology) => topology,
            Err(_) => {
                return reply(request[0], STATUS_ERR_DECODE);
            },
        };
        if topology.validate(&self.limits, &self.profile).is_err() {
            return reply(request[0], STATUS_ERR_INVALID);
        }
        ServiceStep::StoreTopology(topology)
    }

    fn set_profile(&self, request: &[u8]) -> (step: ServiceStep)
        requires
            request@.len() > 0,
        ensures
            step@ == self@.set_profile(request@),
    {
        let payload: Vec<u8> = copy_range(request, 1, request.len());
        assert(payload@ =~= request@.skip(1));
        let profile: BoardProfile = match profile_from_bytes(payload.as_slice()) {
            Ok(profile) => profile,
            Err(_) => {
                return reply(request[0], STATUS_ERR_DECODE);
            },
        };
        if profile.validate(&self.limits).is_err() {
            return reply(request[0], STATUS_ERR_INVALID);
        }
        ServiceStep::StoreProfile(profile)
    }

    /// The answer to `CMD_COMMIT` once the flash write was tried.
    pub fn topology_stored(&self, stored: bool) -> (response: Vec<u8>)
        ensures
            response@ == stored_reply(CMD_COMMIT, stored),
    {
        let status: u8 = if stored {
            STATUS_OK
        } else {
            STATUS_ERR_FLASH
        };
        let response: Vec<u8> = vec![CMD_COMMIT, status];
        assert(response@ =~= seq![CMD_COMMIT, status]);
        response
    }

    /// The answer to `CMD_SET_PROFILE` once the flash write was tried. A profile
    /// that was written holds for the commits that follow.
    pub fn profile_stored(&mut self, profile: BoardProfile, stored: bool) -> (response: Vec<u8>)
        ensures
            response@ == stored_reply(CMD_SET_PROFILE, stored),
            final(self)@ == old(self)@.holding(profile, stored),
    {
        let status: u8 = if stored {
            self.profile = profile;
            STATUS_OK
        } else {
            STATUS_ERR_FLASH
        };
        let response: Vec<u8> = vec![CMD_SET_PROFILE, status];
        assert(response@ =~= seq![CMD_SET_PROFILE, status]);
        response
    }
}

/// A GET request is answered with the length of the encoding of the active topology
/// and with the bytes of it that follow the offset asked for, as many as there are up
/// to 61. An offset behind the end is a bad request. Without an offset the answer
/// starts at the first byte.
pub proof fn chunks_carry_the_encoding(
    service: ServiceSpec,
    request: Seq<u8>,
    diag: Seq<Seq<u8>>,
    i: int,
)
    requires
        request.len() > 0,
        request[0] == 0x81,
        wire::topology_encoding(service.active).len() <= 128,
    ensures
        ({
            let encoded = wire::topology_encoding(service.active);
            let offset = if request.len() == 1 {
                0
            } else {
                request[1] as int
            };
            let (staged, step) = service.handle(request, diag);
            &&& staged == service.staged
            &&& step matches StepSpec::Reply { response, after } && after == AfterResponse::Nothing
                && if offset > encoded.len() {
                response == seq![0x81u8, 0x04u8]
            } else {
                let n = response.len() - 3;
                &&& response[0] == 0x81
                &&& response[1] == 0x00
                &&& response[2] == encoded.len()
                &&& 0 <= n <= 61
                &&& n == 61 || offset + n == encoded.len()
                &&& offset + n <= encoded.len()
                &&& 0 <= i < n ==> response[3 + i] == encoded[offset + i]
            }
        }),
{
}

/// A SET request at offset 0 starts over, and any other has to go on where the bytes
/// staged before end. What is staged is then those bytes and the request's own, up to 128
/// bytes in all; otherwise the request is bad, and adds nothing.
pub proof fn chunks_are_staged_in_order(
    service: ServiceSpec,
    request: Seq<u8>,
    diag: Seq<Seq<u8>>,
)
    requires
        request.len() > 0,
        request[0] == 0x82,
    ensures
        ({
            let (staged, step) = service.handle(request, diag);
            let bad = StepSpec::Reply {
                response: seq![0x82u8, 0x04u8],
                after: AfterResponse::Nothing,
            };
            let good = StepSpec::Reply {
                response: seq![0x82u8, 0x00u8],
                after: AfterResponse::Nothing,
            };
            let size = request.len() - 2;
            &&& size < 0 ==> staged == service.staged && step == bad
            &&& size >= 0 && request[1] == 0 && size <= 128 ==> staged == request.subrange(
                2,
                request.len() as int,
            ) && step == good
            &&& size > 128 && request[1] == 0 ==> staged.len() == 0 && step == bad
            &&& size >= 0 && request[1] != 0 && request[1] == service.staged.len() && request[1]
                + size <= 128 ==> staged == service.staged + request.subrange(
                2,
                request.len() as int,
            ) && step == good
            &&& size >= 0 && request[1] != 0 && (request[1] != service.staged.len() || request[1]
                + size > 128) ==> staged == service.staged && step == bad
        }),
{
    let (staged, step) = service.handle(request, diag);
    if request.len() >= 2 {
        assert(request.skip(2) =~= request.subrange(2, request.len() as int));
        assert(Seq::<u8>::empty() + request.skip(2) =~= request.skip(2));
    }
}

/// A commit stores the staged topology if the length it names is that of the staged
/// bytes, they decode, and the topology is valid; otherwise it is answered with the
/// first of these that fails. Nothing that is staged is lost.
pub proof fn commits_are_judged(service: ServiceSpec, request: Seq<u8>, diag: Seq<Seq<u8>>)
    requires
        request.len() > 0,
        request[0] == 0x83,
    ensures
        ({
            let (staged, step) = service.handle(request, diag);
            let topology = wire::topology_decoding(service.staged, usize::BITS as nat);
            let named = request.len() >= 2 && request[1] == service.staged.len();
            &&& staged == service.staged
            &&& !named ==> step == status_reply(0x83, 0x04)
            &&& named && topology is None ==> step == status_reply(0x83, 0x01)
            &&& named ==> (topology matches Some(t) ==> if t.verdict(
                service.limits,
                service.profile,
            ) is Ok {
                step == StepSpec::StoreTopology(t)
            } else {
                step == status_reply(0x83, 0x02)
            })
        }),
{
}

/// A profile that a host sends is stored if it decodes and suits the chip; otherwise the
/// request is answered with the first of these that fails.
pub proof fn profiles_are_judged(service: ServiceSpec, request: Seq<u8>, diag: Seq<Seq<u8>>)
    requires
        request.len() > 0,
        request[0] == 0x87,
    ensures
        ({
            let (staged, step) = service.handle(request, diag);
            let profile = wire::profile_decoding(request.subrange(1, request.len() as int));
            &&& staged == service.staged
            &&& profile is None ==> step == status_reply(0x87, 0x01)
            &&& profile matches Some(p) ==> if p.verdict(service.limits) is Ok {
                step == StepSpec::StoreProfile(p)
            } else {
                step == status_reply(0x87, 0x02)
            }
        }),
{
    assert(request.skip(1) =~= request.subrange(1, request.len() as int));
}

/// The commands without arguments: each is answered with success and what it asks for,
/// only a reboot does more than answer, and a command that is none of the protocol's is a
/// bad request. None of them touches what is staged.
pub proof fn plain_commands_are_answered(
    service: ServiceSpec,
    request: Seq<u8>,
    diag: Seq<Seq<u8>>,
    i: int,
)
    requires
        request.len() > 0,
        diag.len() <= 6,
        request[0] != 0x81 && request[0] != 0x82 && request[0] != 0x83 && request[0] != 0x87,
    ensures
        service.handle(request, diag).0 == service.staged,
        service.handle(request, diag).1 matches StepSpec::Reply { response, after } && {
            let cmd = request[0];
            let known = cmd == 0x80 || cmd == 0x84 || cmd == 0x85 || cmd == 0x86 || cmd == 0x9F;
            let payload = response.subrange(2, response.len() as int);
            &&& response.len() >= 2
            &&& response[0] == cmd
            &&& response[1] == 0 <==> known
            &&& !known ==> response[1] == 4 && payload.len() == 0
            &&& after == AfterResponse::Reboot <==> cmd == 0x84
            &&& after == AfterResponse::Bootsel <==> cmd == 0x85
            &&& cmd == 0x84 || cmd == 0x85 ==> payload.len() == 0
            &&& cmd == 0x80 ==> payload == wire::info_encoding(service.info)
            &&& cmd == 0x86 ==> payload == wire::profile_encoding(service.profile)
            &&& cmd == 0x9F ==> payload.len() == 1 + reset_iface::entry_bytes(diag).len()
                && payload[0] == diag.len() && (1 <= i < payload.len() ==> payload[i]
                == reset_iface::entry_bytes(diag)[i - 1])
        },
{
}

/// Every answer after a write says whether the write worked, and a profile holds for the
/// commits that follow exactly if it was written. Nothing else changes.
pub proof fn writes_are_reported(service: ServiceSpec, profile: BoardProfile, cmd: u8)
    ensures
        stored_reply(cmd, true) == seq![cmd, 0x00u8],
        stored_reply(cmd, false) == seq![cmd, 0x03u8],
        service.holding(profile, true).profile == profile,
        service.holding(profile, false) == service,
        service.holding(profile, true).staged == service.staged,
        service.holding(profile, true).active == service.active,
        service.holding(profile, true).info == service.info,
        service.holding(profile, true).limits == service.limits,
{
}

/// A reply that only tells a status is the command and the status.
pub proof fn statuses_follow_the_command(cmd: u8, status: u8)
    ensures
        status_reply(cmd, status) matches StepSpec::Reply { response, after }
            && response.len() == 2 && response[0] == cmd && response[1] == status && after
            == AfterResponse::Nothing,
{
}

} // verus!
