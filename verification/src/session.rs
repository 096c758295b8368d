//! Host side of the config protocol: which packets to send, and what the
//! responses mean.
//!
//! Sending is left to the caller. A command with a single packet has a function
//! for the request and one for the response; a topology is read with a
//! [`TopologyReader`] and written with the packets of [`set_topology`], which a
//! [`CommandSequence`] gives out one by one. Every response echoes the command byte
//! and carries a status byte (see [`crate::protocol`]).

use vstd::prelude::*;
use vstd::string::*;

use crate::bytes::{append_range, copy_range};
use crate::config::{BoardProfile, Topology, TopologySpec};
use crate::protocol::{
    FirmwareInfo, CMD_BOOTSEL, CMD_COMMIT, CMD_GET_PROFILE, CMD_GET_TOPOLOGY, CMD_INFO, CMD_REBOOT,
    CMD_SET_PROFILE, CMD_SET_TOPOLOGY, STATUS_ERR_BAD_REQUEST, STATUS_ERR_DECODE, STATUS_ERR_FLASH,
    STATUS_ERR_INVALID, STATUS_OK, TOPOLOGY_BUF_LEN,
};
use crate::text;
use crate::text::{push_decimal, push_hex_byte};
use crate::wire;
use crate::wire::{
    info_from_bytes, profile_from_bytes, profile_to_bytes, topology_from_bytes, topology_to_bytes,
    WireError,
};

verus! {

/// Max topology bytes per SET chunk. Mirrors the firmware's GET chunk size so a
/// full topology fits either way.
pub const SET_CHUNK: usize = 61;

/// What went wrong in a session.
#[derive(Debug, PartialEq, Eq)]
pub enum SessionError {
    /// The response has this many bytes, too few for a command and a status.
    ShortResponse(usize),
    /// The response echoes another command.
    WrongEcho {
        /// The command byte of the response.
        got: u8,
        /// The command byte of the request.
        expected: u8,
    },
    /// The probe reported this status.
    Status(u8),
    /// A topology response has this many bytes, too few for the total length.
    ShortTopology(usize),
    /// The probe had no more bytes, but the topology is not complete.
    EmptyChunk,
    /// The encoded topology has this many bytes, more than the probe can stage.
    TooLong(usize),
    /// The payload of a request could not be encoded.
    Encode(Payload),
    /// The payload of a response could not be decoded; this is what postcard says of it.
    Decode(Payload, String),
}

/// The contents of a [`SessionError`].
pub enum SessionErrorSpec {
    /// The payload of a response could not be decoded, for this reason.
    Decode(Payload, Seq<char>),
    /// Any other error.
    Other(SessionError),
}

impl View for SessionError {
    type V = SessionErrorSpec;

    open spec fn view(&self) -> SessionErrorSpec {
        match *self {
            SessionError::Decode(payload, cause) => SessionErrorSpec::Decode(payload, cause@),
            other => SessionErrorSpec::Other(other),
        }
    }
}

/// What a packet carries.
#[derive(Debug, Clone, Copy, PartialEq, Eq, Structural)]
pub enum Payload {
    /// Firmware information.
    FirmwareInfo,
    /// A topology.
    Topology,
    /// A board profile.
    BoardProfile,
}

/// What [`check`] makes of a response.
pub open spec fn check_verdict(resp: Seq<u8>, cmd: u8) -> Result<(), SessionError> {
    if resp.len() < 2 {
        Err(SessionError::ShortResponse(resp.len() as usize))
    } else if resp[0] != cmd {
        Err(SessionError::WrongEcho { got: resp[0], expected: cmd })
    } else if resp[1] != STATUS_OK {
        Err(SessionError::Status(resp[1]))
    } else {
        Ok(())
    }
}

/// Verify a response echoes `cmd` and carries `STATUS_OK`.
pub fn check(resp: &[u8], cmd: u8) -> (r: Result<(), SessionError>)
    ensures
        r == check_verdict(resp@, cmd),
{
    if resp.len() < 2 {
        return Err(SessionError::ShortResponse(resp.len()));
    }
    if resp[0] != cmd {
        return Err(SessionError::WrongEcho { got: resp[0], expected: cmd });
    }
    if resp[1] != STATUS_OK {
        return Err(SessionError::Status(resp[1]));
    }
    Ok(())
}

/// What postcard says of bytes that did not decode.
fn decode_cause(e: WireError) -> (r: String)
    requires
        e is Decode,
    ensures
        r == e->Decode_0,
{
    match e {
        WireError::Decode(cause) => cause,
        WireError::Encode => String::new(),
    }
}

/// What a response with a payload means: the payload is what follows the status.
pub open spec fn payload_verdict<T>(
    resp: Seq<u8>,
    cmd: u8,
    payload: Payload,
    decoding: spec_fn(Seq<u8>) -> Option<T>,
    cause: spec_fn(Seq<u8>) -> Seq<char>,
) -> Result<T, SessionErrorSpec> {
    match check_verdict(resp, cmd) {
        Err(e) => Err(SessionErrorSpec::Other(e)),
        Ok(()) => match decoding(resp.skip(2)) {
            Some(value) => Ok(value),
            None => Err(SessionErrorSpec::Decode(payload, cause(resp.skip(2)))),
        },
    }
}

/// What the response to [`info_request`] means.
pub open spec fn info_verdict(resp: Seq<u8>) -> Result<FirmwareInfo, SessionErrorSpec> {
    payload_verdict(
        resp,
        CMD_INFO,
        Payload::FirmwareInfo,
        |payload: Seq<u8>| wire::info_decoding(payload),
        |payload: Seq<u8>| wire::postcard_info_in(payload)->Err_0,
    )
}

/// What the response to [`get_profile_request`] means.
pub open spec fn profile_verdict(resp: Seq<u8>) -> Result<BoardProfile, SessionErrorSpec> {
    payload_verdict(
        resp,
        CMD_GET_PROFILE,
        Payload::BoardProfile,
        |payload: Seq<u8>| wire::profile_decoding(payload),
        |payload: Seq<u8>| wire::postcard_profile_in(payload)->Err_0,
    )
}

/// The request for [`FirmwareInfo`].
pub fn info_request() -> (r: Vec<u8>)
    ensures
        r@ == seq![CMD_INFO],
{
    let r: Vec<u8> = vec![CMD_INFO];
    assert(r@ =~= seq![CMD_INFO]);
    r
}

/// Read the response to [`info_request`].
pub fn info(resp: &[u8]) -> (r: Result<FirmwareInfo, SessionError>)
    ensures
        match (r, info_verdict(resp@)) {
            (Ok(info), Ok(expected)) => info == expected,
            (Err(e), Err(expected)) => e@ == expected,
            _ => false,
        },
{
    check(resp, CMD_INFO)?;
    let payload: Vec<u8> = copy_range(resp, 2, resp.len());
    assert(payload@ =~= resp@.skip(2));
    match info_from_bytes(payload.as_slice()) {
        Ok(info) => Ok(info),
        Err(e) => Err(SessionError::Decode(Payload::FirmwareInfo, decode_cause(e))),
    }
}

/// The request for the board profile.
pub fn get_profile_request() -> (r: Vec<u8>)
    ensures
        r@ == seq![CMD_GET_PROFILE],
{
    let r: Vec<u8> = vec![CMD_GET_PROFILE];
    assert(r@ =~= seq![CMD_GET_PROFILE]);
    r
}

/// Read the response to [`get_profile_request`].
pub fn get_profile(resp: &[u8]) -> (r: Result<BoardProfile, SessionError>)
    ensures
        match (r, profile_verdict(resp@)) {
            (Ok(profile), Ok(expected)) => profile == expected,
            (Err(e), Err(expected)) => e@ == expected,
            _ => false,
        },
{
    check(resp, CMD_GET_PROFILE)?;
    let payload: Vec<u8> = copy_range(resp, 2, resp.len());
    assert(payload@ =~= resp@.skip(2));
    match profile_from_bytes(payload.as_slice()) {
        Ok(profile) => Ok(profile),
        Err(e) => Err(SessionError::Decode(Payload::BoardProfile, decode_cause(e))),
    }
}

/// The request that stores a board profile; the response is for [`check`].
pub fn set_profile_request(profile: &BoardProfile) -> (r: Result<Vec<u8>, SessionError>)
    ensures
        r matches Ok(request) && request@ == seq![CMD_SET_PROFILE] + wire::profile_encoding(
            *profile,
        ) && wire::profile_decoding(request@.skip(1)) == Some(*profile),
{
    let encoded: Vec<u8> = match profile_to_bytes(profile) {
        Ok(encoded) => encoded,
        Err(_) => {
            return Err(SessionError::Encode(Payload::BoardProfile));
        },
    };
    let mut request: Vec<u8> = vec![CMD_SET_PROFILE];
    append_range(&mut request, encoded.as_slice(), 0, encoded.len());
    assert(request@ =~= seq![CMD_SET_PROFILE] + encoded@);
    assert(request@.skip(1) =~= encoded@);
    Ok(request)
}

/// The request that resets the probe; the response is for [`check`].
pub fn reboot_request() -> (r: Vec<u8>)
    ensures
        r@ == seq![CMD_REBOOT],
{
    let r: Vec<u8> = vec![CMD_REBOOT];
    assert(r@ =~= seq![CMD_REBOOT]);
    r
}

/// The request that reboots into the bootloader; the response is for [`check`].
pub fn reboot_bootsel_request() -> (r: Vec<u8>)
    ensures
        r@ == seq![CMD_BOOTSEL],
{
    let r: Vec<u8> = vec![CMD_BOOTSEL];
    assert(r@ =~= seq![CMD_BOOTSEL]);
    r
}

/// Collects the active topology, chunk by chunk.
pub struct TopologyReader {
    buf: Vec<u8>,
}

/// What one response does to the bytes collected so far: the bytes, and whether
/// the topology is complete.
pub open spec fn chunk_verdict(buf: Seq<u8>, resp: Seq<u8>) -> Result<
    (Seq<u8>, bool),
    SessionError,
> {
    match check_verdict(resp, CMD_GET_TOPOLOGY) {
        Err(e) => Err(e),
        Ok(()) => if resp.len() < 3 {
            Err(SessionError::ShortTopology(resp.len() as usize))
        } else {
            let total = resp[2] as int;
            let chunk = resp.skip(3);
            if buf.len() >= total {
                Ok((buf, true))
            } else if chunk.len() == 0 {
                Err(SessionError::EmptyChunk)
            } else if buf.len() + chunk.len() >= total {
                Ok(((buf + chunk).take(total), true))
            } else {
                Ok((buf + chunk, false))
            }
        },
    }
}

/// The request for what follows the bytes collected so far.
pub open spec fn next_chunk(buf: Seq<u8>) -> Seq<u8> {
    seq![CMD_GET_TOPOLOGY, buf.len() as u8]
}

impl View for TopologyReader {
    type V = Seq<u8>;

    closed spec fn view(&self) -> Seq<u8> {
        self.buf@
    }
}

impl TopologyReader {
    /// A reader that has collected nothing.
    pub fn new() -> (r: TopologyReader)
        ensures
            r@ == Seq::<u8>::empty(),
    {
        TopologyReader { buf: Vec::new() }
    }

    /// The request for the next chunk.
    pub fn request(&self) -> (r: Vec<u8>)
        requires
            self@.len() <= 255,
        ensures
            r@ == next_chunk(self@),
    {
        let r: Vec<u8> = vec![CMD_GET_TOPOLOGY, self.buf.len() as u8];
        assert(r@ =~= seq![CMD_GET_TOPOLOGY, self@.len() as u8]);
        r
    }

    /// Take the response to [`TopologyReader::request`]; true once the topology is complete.
    pub fn accept(&mut self, resp: &[u8]) -> (r: Result<bool, SessionError>)
        requires
            old(self)@.len() <= 255,
        ensures
            match (r, chunk_verdict(old(self)@, resp@)) {
                (Ok(complete), Ok((buf, done))) => complete == done && final(self)@ == buf,
                (Err(e), Err(f)) => e == f && final(self)@ == old(self)@,
                _ => false,
            },
            final(self)@.len() <= 255,
    {
        check(resp, CMD_GET_TOPOLOGY)?;
        if resp.len() < 3 {
            return Err(SessionError::ShortTopology(resp.len()));
        }
        let total: usize = resp[2] as usize;
        let have: usize = self.buf.len();
        if have >= total {
            return Ok(true);
        }
        let more: usize = resp.len() - 3;
        if more == 0 {
            return Err(SessionError::EmptyChunk);
        }
        let ghost before = self@;
        if more >= total - have {
            append_range(&mut self.buf, resp, 3, 3 + (total - have));
            assert(self@ =~= (before + resp@.skip(3)).take(total as int));
            return Ok(true);
        }
        append_range(&mut self.buf, resp, 3, resp.len());
        assert(self@ =~= before + resp@.skip(3));
        Ok(false)
    }

    /// Decode what was collected; see [`read_verdict`].
    pub fn finish(self) -> (r: Result<Topology, SessionError>)
        ensures
            match r {
                Ok(topology) => wire::topology_decoding(self@, usize::BITS as nat) == Some(
                    topology@,
                ),
                Err(e) => wire::topology_decoding(self@, usize::BITS as nat) is None && e@
                    == SessionErrorSpec::Decode(
                    Payload::Topology,
                    wire::postcard_topology_in(self@, usize::BITS as nat)->Err_0,
                ),
            },
            match (r, read_verdict(self@, usize::BITS as nat)) {
                (Ok(topology), Ok(expected)) => topology@ == expected,
                (Err(e), Err(expected)) => e@ == expected,
                _ => false,
            },
    {
        match topology_from_bytes(self.buf.as_slice()) {
            Ok(topology) => Ok(topology),
            Err(e) => Err(SessionError::Decode(Payload::Topology, decode_cause(e))),
        }
    }
}

/// One SET request: the bytes of `encoded` from `offset` to `end`.
pub open spec fn set_request(encoded: Seq<u8>, offset: int, end: int) -> Seq<u8> {
    seq![CMD_SET_TOPOLOGY, offset as u8] + encoded.subrange(offset, end)
}

/// Where the chunk that starts at `offset` ends.
pub open spec fn chunk_end(len: int, offset: int) -> int {
    if len - offset < SET_CHUNK {
        len
    } else {
        offset + SET_CHUNK
    }
}

/// The SET requests for the bytes of `encoded` from `offset` on. There is always
/// one, because the chunk at offset 0 resets the staging buffer.
pub open spec fn set_requests_from(encoded: Seq<u8>, offset: nat) -> Seq<Seq<u8>>
    decreases encoded.len() - offset,
{
    let end = chunk_end(encoded.len() as int, offset as int);
    let request = set_request(encoded, offset as int, end);
    if end >= encoded.len() {
        seq![request]
    } else {
        seq![request] + set_requests_from(encoded, end as nat)
    }
}

/// The requests that stage and commit the bytes of `encoded`.
pub open spec fn set_requests(encoded: Seq<u8>) -> Seq<Seq<u8>> {
    set_requests_from(encoded, 0).push(seq![CMD_COMMIT, encoded.len() as u8])
}

/// The requests as sequences.
pub open spec fn packets(requests: Seq<Vec<u8>>) -> Seq<Seq<u8>> {
    requests.map_values(|request: Vec<u8>| request@)
}

/// The requests that stage `encoded` chunk by chunk and then commit it, to be sent
/// in order by a [`CommandSequence`].
pub fn stage_and_commit(encoded: &[u8]) -> (r: Result<Vec<Vec<u8>>, SessionError>)
    ensures
        match r {
            Ok(requests) => encoded@.len() <= TOPOLOGY_BUF_LEN && packets(requests@)
                == set_requests(encoded@) && have_commands(packets(requests@)),
            Err(e) => encoded@.len() > TOPOLOGY_BUF_LEN && e == SessionError::TooLong(
                encoded@.len() as usize,
            ),
        },
{
    if encoded.len() > TOPOLOGY_BUF_LEN {
        return Err(SessionError::TooLong(encoded.len()));
    }
    let mut requests: Vec<Vec<u8>> = Vec::new();
    let mut offset: usize = 0;
    let mut done: bool = false;
    assert(packets(requests@) + set_requests_from(encoded@, 0) =~= set_requests_from(encoded@, 0));
    while !done
        invariant
            encoded@.len() <= TOPOLOGY_BUF_LEN,
            offset <= encoded@.len(),
            !done ==> set_requests_from(encoded@, 0) == packets(requests@) + set_requests_from(
                encoded@,
                offset as nat,
            ),
            done ==> set_requests_from(encoded@, 0) == packets(requests@),
        decreases
            encoded@.len() - offset + if done {
                0int
            } else {
                1int
            },
    {
        let end: usize = if encoded.len() - offset < SET_CHUNK {
            encoded.len()
        } else {
            offset + SET_CHUNK
        };
        let mut request: Vec<u8> = vec![CMD_SET_TOPOLOGY, offset as u8];
        append_range(&mut request, encoded, offset, end);
        assert(request@ =~= set_request(encoded@, offset as int, end as int));
        let ghost before = packets(requests@);
        requests.push(request);
        assert(packets(requests@) =~= before.push(request@));
        proof {
            if end >= encoded@.len() {
                assert(before + seq![request@] =~= before.push(request@));
            } else {
                assert(before + (seq![request@] + set_requests_from(encoded@, end as nat))
                    =~= before.push(request@) + set_requests_from(encoded@, end as nat));
            }
        }
        offset = end;
        if offset >= encoded.len() {
            done = true;
        }
    }
    let commit: Vec<u8> = vec![CMD_COMMIT, encoded.len() as u8];
    assert(commit@ =~= seq![CMD_COMMIT, encoded@.len() as u8]);
    let ghost before = packets(requests@);
    requests.push(commit);
    assert(packets(requests@) =~= before.push(commit@));
    proof {
        chunks_make_up_the_encoding(encoded@);
    }
    Ok(requests)
}

/// The requests that stage and commit a topology, to be sent in order by a
/// [`CommandSequence`]. The firmware re-validates before writing flash.
pub fn set_topology(topology: &Topology) -> (r: Result<Vec<Vec<u8>>, SessionError>)
    ensures
        r matches Ok(requests) && packets(requests@) == set_requests(
            wire::topology_encoding(topology@),
        ) && have_commands(packets(requests@)),
        wire::topology_encoding(topology@).len() <= 64,
        wire::topology_decoding(wire::topology_encoding(topology@), 32) == Some(topology@),
        wire::topology_decoding(wire::topology_encoding(topology@), 64) == Some(topology@),
{
    let encoded: Vec<u8> = match topology_to_bytes(topology) {
        Ok(encoded) => encoded,
        Err(_) => {
            return Err(SessionError::Encode(Payload::Topology));
        },
    };
    stage_and_commit(encoded.as_slice())
}

/// No packet is empty: each starts with its command byte.
pub open spec fn have_commands(packets: Seq<Seq<u8>>) -> bool {
    forall|i: int| 0 <= i < packets.len() ==> (#[trigger] packets[i]).len() > 0
}

/// What a [`CommandSequence`] still has to do.
#[verifier::ext_equal]
pub struct CommandsSpec {
    /// The packets that were not sent yet.
    pub left: Seq<Seq<u8>>,
    /// The command that was sent last and is not answered yet.
    pub awaited: Option<u8>,
}

impl CommandsSpec {
    /// All of `packets` are to be sent.
    pub open spec fn of(packets: Seq<Seq<u8>>) -> CommandsSpec {
        CommandsSpec { left: packets, awaited: None }
    }

    /// What a response means: it must answer the command that was sent last. No
    /// response at all is a short one.
    pub open spec fn verdict(self, reply: Option<Seq<u8>>) -> Result<(), SessionError> {
        match self.awaited {
            None => Ok(()),
            Some(cmd) => check_verdict(
                match reply {
                    Some(reply) => reply,
                    None => Seq::empty(),
                },
                cmd,
            ),
        }
    }

    /// What is still to be done after a response: nothing, if it was a bad one.
    pub open spec fn after(self, reply: Option<Seq<u8>>) -> CommandsSpec {
        if self.verdict(reply) is Err || self.left.len() == 0 {
            CommandsSpec { left: Seq::empty(), awaited: None }
        } else {
            CommandsSpec { left: self.left.skip(1), awaited: Some(self.left[0][0]) }
        }
    }
}

/// Packets to be sent in order, each once the one before it was answered well.
pub struct CommandSequence {
    requests: Vec<Vec<u8>>,
    sent: usize,
    awaited: Option<u8>,
}

impl View for CommandSequence {
    type V = CommandsSpec;

    closed spec fn view(&self) -> CommandsSpec {
        CommandsSpec {
            left: packets(self.requests@).skip(self.sent as int),
            awaited: self.awaited,
        }
    }
}

impl CommandSequence {
    /// No more was sent than there is, and every packet has a command.
    pub closed spec fn wf(&self) -> bool {
        &&& self.sent <= self.requests@.len()
        &&& have_commands(packets(self.requests@))
    }

    /// Nothing was sent yet.
    pub fn new(requests: Vec<Vec<u8>>) -> (r: CommandSequence)
        requires
            have_commands(packets(requests@)),
        ensures
            r.wf(),
            r@ == CommandsSpec::of(packets(requests@)),
    {
        let r = CommandSequence { requests, sent: 0, awaited: None };
        assert(r@.left =~= packets(requests@));
        r
    }

    /// Take the response to the last packet (`None` at the start), and give out the
    /// next packet, if there is one. After a bad response there is none.
    pub fn next(&mut self, reply: Option<&[u8]>) -> (r: Result<Option<Vec<u8>>, SessionError>)
        requires
            old(self).wf(),
        ensures
            final(self).wf(),
            ({
                let answer = match reply {
                    Some(reply) => Some(reply@),
                    None => None,
                };
                &&& final(self)@ == old(self)@.after(answer)
                &&& match old(self)@.verdict(answer) {
                    Err(e) => r == Err::<Option<Vec<u8>>, SessionError>(e),
                    Ok(()) => match r {
                        Ok(Some(packet)) => old(self)@.left.len() > 0 && packet@ == old(
                            self,
                        )@.left[0],
                        Ok(None) => old(self)@.left.len() == 0,
                        Err(_) => false,
                    },
                }
            }),
    {
        let ghost before = self@;
        if let Some(cmd) = self.awaited {
            let answer: Result<(), SessionError> = match reply {
                Some(reply) => check(reply, cmd),
                None => check(&[], cmd),
            };
            if let Err(e) = answer {
                self.sent = self.requests.len();
                self.awaited = None;
                assert(self@.left =~= Seq::empty());
                return Err(e);
            }
        }
        if self.sent == self.requests.len() {
            self.awaited = None;
            assert(self@.left =~= Seq::empty());
            return Ok(None);
        }
        let ghost all = packets(self.requests@);
        let at: usize = self.sent;
        assert(all[at as int].len() > 0);
        let packet: Vec<u8> = copy_range(
            self.requests[at].as_slice(),
            0,
            self.requests[at].len(),
        );
        assert(packet@ =~= before.left[0]);
        self.awaited = Some(packet[0]);
        self.sent = at + 1;
        assert(self@.left =~= before.left.skip(1));
        Ok(Some(packet))
    }
}

/// What is sent, and what comes of it, when the commands of `state` take up `reply` and
/// then each packet is answered by the next of `replies`.
pub open spec fn conversation(
    state: CommandsSpec,
    reply: Option<Seq<u8>>,
    replies: Seq<Seq<u8>>,
) -> (Seq<Seq<u8>>, Result<(), SessionError>)
    decreases state.left.len(),
{
    match state.verdict(reply) {
        Err(e) => (Seq::empty(), Err(e)),
        Ok(()) => if state.left.len() == 0 {
            (Seq::empty(), Ok(()))
        } else {
            let rest = conversation(state.after(reply), Some(replies[0]), replies.skip(1));
            (seq![state.left[0]] + rest.0, rest.1)
        },
    }
}

/// The `i`-th packet is answered well.
pub open spec fn answered(packets: Seq<Seq<u8>>, replies: Seq<Seq<u8>>, i: int) -> bool {
    check_verdict(replies[i], packets[i][0]) is Ok
}

/// While responses are good, every packet is sent.
proof fn lemma_conversation(
    state: CommandsSpec,
    reply: Option<Seq<u8>>,
    replies: Seq<Seq<u8>>,
    k: int,
)
    requires
        state.verdict(reply) is Ok,
        replies.len() == state.left.len(),
        0 <= k <= state.left.len(),
        forall|i: int| 0 <= i < k ==> answered(state.left, replies, i),
    ensures
        k == state.left.len() ==> conversation(state, reply, replies) == (
            state.left,
            Ok::<(), SessionError>(()),
        ),
        k < state.left.len() ==> (check_verdict(replies[k], state.left[k][0]) matches Err(e)
            ==> conversation(state, reply, replies) == (
            state.left.take(k + 1),
            Err::<(), SessionError>(e),
        )),
    decreases state.left.len(),
{
    if state.left.len() > 0 {
        let next = state.after(reply);
        if k > 0 {
            assert(answered(state.left, replies, 0));
            assert forall|i: int| 0 <= i < k - 1 implies answered(
                next.left,
                replies.skip(1),
                i,
            ) by {
                assert(answered(state.left, replies, i + 1));
            }
            lemma_conversation(next, Some(replies[0]), replies.skip(1), k - 1);
            assert(seq![state.left[0]] + next.left =~= state.left);
            if k < state.left.len() {
                assert(seq![state.left[0]] + next.left.take(k) =~= state.left.take(k + 1));
            }
        } else {
            if check_verdict(replies[0], state.left[0][0]) is Err {
                let rest = conversation(next, Some(replies[0]), replies.skip(1));
                assert(rest.0 =~= Seq::empty());
                assert(seq![state.left[0]] + rest.0 =~= state.left.take(1));
            }
        }
    }
}

/// If every packet is answered well, all are sent, in order, and the sequence succeeds.
pub proof fn accepted_commands_are_all_sent(packets: Seq<Seq<u8>>, replies: Seq<Seq<u8>>)
    requires
        replies.len() == packets.len(),
        forall|i: int| 0 <= i < packets.len() ==> answered(packets, replies, i),
    ensures
        conversation(CommandsSpec::of(packets), None, replies) == (
            packets,
            Ok::<(), SessionError>(()),
        ),
{
    lemma_conversation(CommandsSpec::of(packets), None, replies, packets.len() as int);
}

/// The packet with the first bad response is the last that is sent, and the sequence
/// fails with what is wrong with that response.
pub proof fn refused_commands_end_the_sequence(
    packets: Seq<Seq<u8>>,
    replies: Seq<Seq<u8>>,
    k: int,
    e: SessionError,
)
    requires
        replies.len() == packets.len(),
        0 <= k < packets.len(),
        forall|i: int| 0 <= i < k ==> answered(packets, replies, i),
        check_verdict(replies[k], packets[k][0]) == Err::<(), SessionError>(e),
    ensures
        conversation(CommandsSpec::of(packets), None, replies) == (
            packets.take(k + 1),
            Err::<(), SessionError>(e),
        ),
{
    lemma_conversation(CommandsSpec::of(packets), None, replies, k);
}

/// The bytes that SET requests carry, one after the other.
pub open spec fn carried(requests: Seq<Seq<u8>>) -> Seq<u8>
    decreases requests.len(),
{
    if requests.len() == 0 {
        Seq::empty()
    } else {
        requests[0].skip(2) + carried(requests.skip(1))
    }
}

/// What holds of the SET requests from `offset` on.
proof fn lemma_set_requests_from(encoded: Seq<u8>, offset: nat)
    requires
        offset <= encoded.len() <= TOPOLOGY_BUF_LEN,
    ensures
        ({
            let requests = set_requests_from(encoded, offset);
            &&& requests.len() > 0
            &&& carried(requests) == encoded.skip(offset as int)
            &&& forall|i: int|
                #![trigger requests[i]]
                0 <= i < requests.len() ==> 2 <= requests[i].len() <= 2 + SET_CHUNK
                    && requests[i][0] == CMD_SET_TOPOLOGY && requests[i][1] == offset + carried(
                    requests.take(i),
                ).len()
        }),
    decreases encoded.len() - offset,
{
    let requests = set_requests_from(encoded, offset);
    let end = chunk_end(encoded.len() as int, offset as int);
    let request = set_request(encoded, offset as int, end);
    assert(request.skip(2) =~= encoded.subrange(offset as int, end));
    assert(requests[0] == request);
    assert(requests.take(0) =~= Seq::empty());
    if end >= encoded.len() {
        assert(requests.skip(1) =~= Seq::empty());
        assert(carried(requests) =~= encoded.skip(offset as int)) by {
            reveal_with_fuel(carried, 2);
        }
    } else {
        lemma_set_requests_from(encoded, end as nat);
        let rest = set_requests_from(encoded, end as nat);
        assert(requests.skip(1) =~= rest);
        assert(carried(requests) =~= encoded.skip(offset as int));
        assert forall|i: int|
            #![trigger requests[i]]
            0 <= i < requests.len() implies 2 <= requests[i].len() <= 2 + SET_CHUNK
            && requests[i][0] == CMD_SET_TOPOLOGY && requests[i][1] == offset + carried(
            requests.take(i),
        ).len() by {
            if i > 0 {
                assert(requests[i] == rest[i - 1]);
                assert(requests.take(i).skip(1) =~= rest.take(i - 1));
                assert(requests.take(i)[0] == request);
            }
        }
    }
}

/// An encoding is written in SET requests of at most [`SET_CHUNK`] bytes, each with the
/// number of bytes that were sent before it; together they carry the whole encoding.
/// Then it is committed, with its length.
pub proof fn chunks_make_up_the_encoding(encoded: Seq<u8>)
    requires
        encoded.len() <= TOPOLOGY_BUF_LEN,
    ensures
        ({
            let all = set_requests(encoded);
            let sets = all.drop_last();
            &&& sets.len() > 0
            &&& carried(sets) == encoded
            &&& forall|i: int|
                #![trigger sets[i]]
                0 <= i < sets.len() ==> 2 <= sets[i].len() <= 2 + SET_CHUNK && sets[i][0]
                    == CMD_SET_TOPOLOGY && sets[i][1] == carried(sets.take(i)).len()
            &&& all.last() == seq![CMD_COMMIT, encoded.len() as u8]
            &&& have_commands(all)
        }),
{
    lemma_set_requests_from(encoded, 0);
    let all = set_requests(encoded);
    let sets = set_requests_from(encoded, 0);
    assert(all.drop_last() =~= sets);
    assert(encoded.skip(0) =~= encoded);
    assert forall|i: int| 0 <= i < all.len() implies (#[trigger] all[i]).len() > 0 by {
        if i < sets.len() {
            assert(all[i] == sets[i]);
        }
    }
}

/// When a SET request gets a bad response, the write fails and nothing is committed.
pub proof fn failed_writes_are_not_committed(
    encoded: Seq<u8>,
    replies: Seq<Seq<u8>>,
    k: int,
    e: SessionError,
)
    requires
        encoded.len() <= TOPOLOGY_BUF_LEN,
        replies.len() == set_requests(encoded).len(),
        0 <= k < set_requests(encoded).len() - 1,
        forall|i: int| 0 <= i < k ==> answered(set_requests(encoded), replies, i),
        check_verdict(replies[k], CMD_SET_TOPOLOGY) == Err::<(), SessionError>(e),
    ensures
        ({
            let (sent, outcome) = conversation(
                CommandsSpec::of(set_requests(encoded)),
                None,
                replies,
            );
            &&& outcome == Err::<(), SessionError>(e)
            &&& sent == set_requests(encoded).take(k + 1)
            &&& forall|i: int|
                0 <= i < sent.len() ==> (#[trigger] sent[i])[0] == CMD_SET_TOPOLOGY
        }),
{
    let all = set_requests(encoded);
    chunks_make_up_the_encoding(encoded);
    let sets = all.drop_last();
    assert(all[k] == sets[k]);
    refused_commands_end_the_sequence(all, replies, k, e);
    assert forall|i: int| 0 <= i < k + 1 implies (#[trigger] all.take(k + 1)[i])[0]
        == CMD_SET_TOPOLOGY by {
        assert(all[i] == sets[i]);
    }
}

/// Human-readable meaning of a protocol status byte.
pub open spec fn status_text(status: u8) -> Seq<char> {
    if status == STATUS_OK {
        "ok"@
    } else if status == STATUS_ERR_DECODE {
        "payload failed to decode"@
    } else if status == STATUS_ERR_INVALID {
        "topology failed validation"@
    } else if status == STATUS_ERR_FLASH {
        "flash write failed"@
    } else if status == STATUS_ERR_BAD_REQUEST {
        "unknown command or malformed arguments"@
    } else {
        "unknown status"@
    }
}

/// Human-readable meaning of a protocol status byte.
pub fn status_str(status: u8) -> (r: &'static str)
    ensures
        r@ == status_text(status),
{
    match status {
        STATUS_OK => "ok",
        STATUS_ERR_DECODE => "payload failed to decode",
        STATUS_ERR_INVALID => "topology failed validation",
        STATUS_ERR_FLASH => "flash write failed",
        STATUS_ERR_BAD_REQUEST => "unknown command or malformed arguments",
        _ => "unknown status",
    }
}

impl Payload {
    /// The name of the type.
    pub open spec fn text(self) -> Seq<char> {
        match self {
            Payload::FirmwareInfo => "FirmwareInfo"@,
            Payload::Topology => "Topology"@,
            Payload::BoardProfile => "BoardProfile"@,
        }
    }

    /// The name of the type.
    pub fn name(&self) -> (r: &'static str)
        ensures
            r@ == self.text(),
    {
        match self {
            Payload::FirmwareInfo => "FirmwareInfo",
            Payload::Topology => "Topology",
            Payload::BoardProfile => "BoardProfile",
        }
    }
}

impl SessionError {
    /// The error in words, without the cause.
    pub open spec fn text(self) -> Seq<char> {
        match self {
            SessionError::ShortResponse(len) => "short response ("@ + text::decimal(len as nat)
                + " bytes)"@,
            SessionError::WrongEcho { got, expected } => "response command 0x"@ + text::hex_byte(
                got,
            ) + " does not echo request 0x"@ + text::hex_byte(expected),
            SessionError::Status(status) => "probe reported error: "@ + status_text(status)
                + " (status 0x"@ + text::hex_byte(status) + ")"@,
            SessionError::ShortTopology(len) => "short GET_TOPOLOGY response ("@ + text::decimal(
                len as nat,
            ) + " bytes)"@,
            SessionError::EmptyChunk =>
                "probe returned an empty chunk before the topology was complete"@,
            SessionError::TooLong(len) => "encoded topology is "@ + text::decimal(len as nat)
                + " bytes, firmware staging buffer holds 128"@,
            SessionError::Encode(payload) => "encode "@ + payload.text(),
            SessionError::Decode(payload, _) => "decode "@ + payload.text(),
        }
    }

    /// The error in words, without the cause.
    pub fn message(&self) -> (r: String)
        ensures
            r@ == self.text(),
    {
        let mut out = String::new();
        match self {
            SessionError::ShortResponse(len) => {
                out.append("short response (");
                push_decimal(&mut out, *len as u64);
                out.append(" bytes)");
            },
            SessionError::WrongEcho { got, expected } => {
                out.append("response command 0x");
                push_hex_byte(&mut out, *got);
                out.append(" does not echo request 0x");
                push_hex_byte(&mut out, *expected);
            },
            SessionError::Status(status) => {
                out.append("probe reported error: ");
                out.append(status_str(*status));
                out.append(" (status 0x");
                push_hex_byte(&mut out, *status);
                out.append(")");
            },
            SessionError::ShortTopology(len) => {
                out.append("short GET_TOPOLOGY response (");
                push_decimal(&mut out, *len as u64);
                out.append(" bytes)");
            },
            SessionError::EmptyChunk => {
                out.append("probe returned an empty chunk before the topology was complete");
            },
            SessionError::TooLong(len) => {
                out.append("encoded topology is ");
                push_decimal(&mut out, *len as u64);
                out.append(" bytes, firmware staging buffer holds 128");
            },
            SessionError::Encode(payload) => {
                out.append("encode ");
                out.append(payload.name());
            },
            SessionError::Decode(payload, _) => {
                out.append("decode ");
                out.append(payload.name());
            },
        }
        assert(out@ =~= self.text());
        out
    }
}

/// A response is good exactly if it echoes the command and carries a zero status; what is
/// wrong with it otherwise is told by its length, its first byte or its status, in this
/// order.
pub proof fn responses_are_checked(resp: Seq<u8>, cmd: u8)
    requires
        resp.len() <= usize::MAX,
    ensures
        check_verdict(resp, cmd) is Ok <==> resp.len() >= 2 && resp[0] == cmd && resp[1] == 0,
        check_verdict(resp, cmd) matches Err(e) ==> match e {
            SessionError::ShortResponse(len) => len == resp.len() && len < 2,
            SessionError::WrongEcho { got, expected } => resp.len() >= 2 && got == resp[0]
                && expected == cmd && got != expected,
            SessionError::Status(status) => resp.len() >= 2 && resp[0] == cmd && status == resp[1]
                && status != 0,
            _ => false,
        },
{
}

/// Firmware information and a board profile are what a good response carries behind its
/// two first bytes, and come from nothing else.
pub proof fn payloads_follow_the_status(resp: Seq<u8>)
    ensures
        ({
            let payload = resp.subrange(2, resp.len() as int);
            let good = resp.len() >= 2 && resp[1] == 0;
            &&& info_verdict(resp) matches Ok(info) ==> good && resp[0] == 0x80
                && wire::info_decoding(payload) == Some(info)
            &&& good && resp[0] == 0x80 ==> (info_verdict(resp) is Err <==> wire::info_decoding(
                payload,
            ) is None)
            &&& info_verdict(resp) matches Err(SessionErrorSpec::Decode(what, cause)) ==> good
                && resp[0] == 0x80 && what == Payload::FirmwareInfo && wire::info_decoding(
                payload,
            ) is None && cause == wire::postcard_info_in(payload)->Err_0
            &&& profile_verdict(resp) matches Ok(profile) ==> good && resp[0] == 0x86
                && wire::profile_decoding(payload) == Some(profile)
            &&& good && resp[0] == 0x86 ==> (profile_verdict(resp) is Err
                <==> wire::profile_decoding(payload) is None)
            &&& profile_verdict(resp) matches Err(SessionErrorSpec::Decode(what, cause)) ==> good
                && resp[0] == 0x86 && what == Payload::BoardProfile && wire::profile_decoding(
                payload,
            ) is None && cause == wire::postcard_profile_in(payload)->Err_0
        }),
{
    if resp.len() >= 2 {
        assert(resp.skip(2) =~= resp.subrange(2, resp.len() as int));
    }
}

/// A reader keeps what it has and adds the bytes behind the third of a good response, up to
/// the total that the third byte gives; it is done exactly when it has that many. A
/// response that adds nothing though more is missing is an error.
pub proof fn chunks_are_collected(buf: Seq<u8>, resp: Seq<u8>, i: int)
    requires
        resp.len() <= usize::MAX,
    ensures
        ({
            let good = resp.len() >= 3 && resp[0] == 0x81 && resp[1] == 0;
            let stuck = good && resp.len() == 3 && buf.len() < resp[2];
            &&& chunk_verdict(buf, resp) is Ok <==> good && !stuck
            &&& stuck ==> chunk_verdict(buf, resp) == Err::<(Seq<u8>, bool), SessionError>(
                SessionError::EmptyChunk,
            )
            &&& resp.len() == 2 && resp[0] == 0x81 && resp[1] == 0 ==> chunk_verdict(buf, resp)
                == Err::<(Seq<u8>, bool), SessionError>(SessionError::ShortTopology(2))
            &&& chunk_verdict(buf, resp) matches Ok((bytes, complete)) ==> {
                &&& bytes.len() >= buf.len()
                &&& complete <==> bytes.len() >= resp[2]
                &&& bytes.len() > buf.len() ==> bytes.len() <= resp[2]
                &&& !complete ==> bytes.len() == buf.len() + resp.len() - 3
                &&& 0 <= i < buf.len() ==> bytes[i] == buf[i]
                &&& buf.len() <= i < bytes.len() ==> bytes[i] == resp[3 + i - buf.len()]
            }
        }),
{
}

/// All SET requests from `offset` on but the last carry a full chunk.
proof fn lemma_full_chunks(encoded: Seq<u8>, offset: nat, i: int)
    requires
        offset <= encoded.len() <= 128,
        0 <= i < set_requests_from(encoded, offset).len(),
    ensures
        ({
            let requests = set_requests_from(encoded, offset);
            &&& 61 * i + offset <= encoded.len()
            &&& requests[i][0] == 0x82
            &&& requests[i][1] == offset + 61 * i
            &&& i + 1 < requests.len() ==> requests[i].len() == 63
            &&& i + 1 == requests.len() ==> requests[i].len() == 2 + encoded.len() - (offset + 61
                * i) && requests[i].len() <= 63
            &&& requests[i].skip(2) == encoded.subrange(
                offset + 61 * i,
                offset + 61 * i + requests[i].len() - 2,
            )
        }),
    decreases encoded.len() - offset,
{
    let requests = set_requests_from(encoded, offset);
    let end = chunk_end(encoded.len() as int, offset as int);
    let request = set_request(encoded, offset as int, end);
    assert(request.skip(2) =~= encoded.subrange(offset as int, end));
    assert(requests[0] == request);
    assert(request.len() == 2 + end - offset);
    if end >= encoded.len() {
        assert(requests.len() == 1);
    } else {
        let rest = set_requests_from(encoded, end as nat);
        assert(end == offset + 61);
        assert(requests.len() == 1 + rest.len());
        if i > 0 {
            lemma_full_chunks(encoded, end as nat, i - 1);
            assert(requests[i] == rest[i - 1]);
            assert(end + 61 * (i - 1) == offset + 61 * i);
        } else {
            assert(rest.len() > 0);
        }
    }
}

/// The requests that write an encoding: the `i`-th carries the bytes from `61 * i` on, 61 of
/// them while there are more, and is followed in the end by a commit of the whole length.
pub proof fn writes_go_out_in_full_chunks(encoded: Seq<u8>, i: int)
    requires
        encoded.len() <= 128,
        0 <= i < set_requests(encoded).len(),
    ensures
        ({
            let all = set_requests(encoded);
            let sets = all.len() - 1;
            &&& sets >= 1
            &&& 61 * (sets - 1) <= encoded.len() <= 61 * sets
            &&& i < sets ==> {
                let size = all[i].len() - 2;
                &&& all[i][0] == 0x82
                &&& all[i][1] == 61 * i
                &&& i + 1 < sets ==> size == 61
                &&& i + 1 == sets ==> size == encoded.len() - 61 * i
                &&& all[i].skip(2) == encoded.subrange(61 * i, 61 * i + size)
            }
            &&& i == sets ==> all[i] == seq![0x83u8, encoded.len() as u8]
        }),
{
    let sets = set_requests_from(encoded, 0);
    lemma_full_chunks(encoded, 0, sets.len() - 1);
    if i < sets.len() {
        lemma_full_chunks(encoded, 0, i);
        assert(set_requests(encoded)[i] == sets[i]);
    }
}

/// Every status byte has a meaning of its own, and those that the protocol does not know
/// are said to be unknown.
pub proof fn statuses_have_meanings(status: u8)
    ensures
        status == 0 ==> status_text(status) == "ok"@,
        status == 1 ==> status_text(status) == "payload failed to decode"@,
        status == 2 ==> status_text(status) == "topology failed validation"@,
        status == 3 ==> status_text(status) == "flash write failed"@,
        status == 4 ==> status_text(status) == "unknown command or malformed arguments"@,
        status > 4 ==> status_text(status) == "unknown status"@,
{
}

/// A sequence of commands gives out its packets in order, one for each good response, and
/// then waits for an answer to that packet's command; a bad response ends it.
pub proof fn commands_go_out_in_order(state: CommandsSpec, reply: Seq<u8>, cmd: u8)
    ensures
        ({
            let waiting = CommandsSpec { left: state.left, awaited: Some(cmd) };
            let good = reply.len() >= 2 && reply[0] == cmd && reply[1] == 0;
            let after = waiting.after(Some(reply));
            &&& waiting.verdict(Some(reply)) is Ok <==> good
            &&& waiting.verdict(None) is Err
            &&& good && state.left.len() > 0 ==> after.awaited == Some(state.left[0][0])
                && after.left == state.left.subrange(1, state.left.len() as int)
            &&& !good || state.left.len() == 0 ==> after.left.len() == 0 && after.awaited is None
        }),
{
}

/// A reader asks for the bytes behind those that it has.
pub proof fn readers_ask_for_what_follows(buf: Seq<u8>)
    requires
        buf.len() <= 255,
    ensures
        next_chunk(buf).len() == 2,
        next_chunk(buf)[0] == 0x81,
        next_chunk(buf)[1] == buf.len(),
{
}

/// Every number that an error carries stands in its message: lengths in decimal, and
/// commands and statuses in hexadecimal.
pub proof fn messages_tell_the_numbers(len: usize, a: u8, b: u8)
    ensures
        ({
            let n = text::decimal(len as nat);
            let short = SessionError::ShortResponse(len).text();
            let topology = SessionError::ShortTopology(len).text();
            let long = SessionError::TooLong(len).text();
            let echo = SessionError::WrongEcho { got: a, expected: b }.text();
            let status = SessionError::Status(a).text();
            &&& short.subrange(16, 16int + n.len()) == n
            &&& topology.subrange(29, 29int + n.len()) == n
            &&& long.subrange(20, 20int + n.len()) == n
            &&& long.skip(long.len() - 3) == seq!['1', '2', '8']
            &&& echo.subrange(19, 21) == text::hex_byte(a)
            &&& echo.skip(echo.len() - 2) == text::hex_byte(b)
            &&& status.subrange(22, 22int + status_text(a).len()) == status_text(a)
            &&& status.subrange(status.len() - 3, status.len() - 1) == text::hex_byte(a)
        }),
{
    reveal_strlit("short response (");
    reveal_strlit("short GET_TOPOLOGY response (");
    reveal_strlit("encoded topology is ");
    reveal_strlit(" bytes, firmware staging buffer holds 128");
    reveal_strlit("response command 0x");
    reveal_strlit(" does not echo request 0x");
    reveal_strlit("probe reported error: ");
    reveal_strlit(" (status 0x");
    reveal_strlit(")");
    let n = text::decimal(len as nat);
    let echo = SessionError::WrongEcho { got: a, expected: b }.text();
    let status = SessionError::Status(a).text();
    assert(SessionError::ShortResponse(len).text().subrange(16, 16int + n.len()) =~= n);
    assert(SessionError::ShortTopology(len).text().subrange(29, 29int + n.len()) =~= n);
    let long = SessionError::TooLong(len).text();
    assert(long.subrange(20, 20int + n.len()) =~= n);
    assert(long.skip(long.len() - 3) =~= seq!['1', '2', '8']);
    assert(echo.subrange(19, 21) =~= text::hex_byte(a));
    assert(echo.skip(echo.len() - 2) =~= text::hex_byte(b));
    assert(status.subrange(22, 22int + status_text(a).len()) =~= status_text(a));
    assert(status.subrange(status.len() - 3, status.len() - 1) =~= text::hex_byte(a));
}

/// What the collected bytes mean to a reader with words of `word_bits` bits.
pub open spec fn read_verdict(buf: Seq<u8>, word_bits: nat) -> Result<
    TopologySpec,
    SessionErrorSpec,
> {
    match wire::topology_decoding(buf, word_bits) {
        Some(topology) => Ok(topology),
        None => Err(
            SessionErrorSpec::Decode(
                Payload::Topology,
                wire::postcard_topology_in(buf, word_bits)->Err_0,
            ),
        ),
    }
}

/// A reader that has collected the encoding of a topology reads that topology; what does not
/// decode is an error about a topology.
pub proof fn collected_encodings_are_read(topology: TopologySpec, buf: Seq<u8>, word_bits: nat)
    requires
        wire::topology_reads_back(topology),
        word_bits == 32 || word_bits == 64,
    ensures
        read_verdict(wire::topology_encoding(topology), word_bits) == Ok::<_, SessionErrorSpec>(
            topology,
        ),
        read_verdict(buf, word_bits) is Ok <==> wire::topology_decoding(buf, word_bits) is Some,
        read_verdict(buf, word_bits) matches Err(e) ==> e is Decode && e->Decode_0
            == Payload::Topology,
{
}

} // verus!
