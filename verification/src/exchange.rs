//! What host and probe achieve together: the packets of [`crate::session`] handed
//! to a [`crate::vendor::ConfigService`].

use vstd::prelude::*;

use crate::config::{BoardProfile, TopologySpec, MAX_PROBES, MAX_UARTS};
use crate::protocol::{
    CMD_COMMIT, CMD_GET_PROFILE, CMD_GET_TOPOLOGY, CMD_INFO, CMD_SET_PROFILE, CMD_SET_TOPOLOGY,
    STATUS_ERR_INVALID, STATUS_OK, TOPOLOGY_BUF_LEN,
};
use crate::session;
use crate::session::{SessionError, SessionErrorSpec};
use crate::vendor;
use crate::vendor::{ServiceSpec, StepSpec};
use crate::wire;

verus! {

/// The service after the requests were handled in order, and what each led to.
pub open spec fn run(
    service: ServiceSpec,
    requests: Seq<Seq<u8>>,
    diag: Seq<Seq<u8>>,
) -> (ServiceSpec, Seq<StepSpec>)
    decreases requests.len(),
{
    if requests.len() == 0 {
        (service, Seq::empty())
    } else {
        let (staged, step) = service.handle(requests[0], diag);
        let (after, steps) = run(
            ServiceSpec { staged, ..service },
            requests.skip(1),
            diag,
        );
        (after, seq![step] + steps)
    }
}

proof fn lemma_run_push(
    service: ServiceSpec,
    requests: Seq<Seq<u8>>,
    last: Seq<u8>,
    diag: Seq<Seq<u8>>,
)
    ensures
        run(service, requests.push(last), diag) == {
            let (before, steps) = run(service, requests, diag);
            let (staged, step) = before.handle(last, diag);
            (ServiceSpec { staged, ..before }, steps.push(step))
        },
    decreases requests.len(),
{
    let longer = requests.push(last);
    if requests.len() == 0 {
        reveal_with_fuel(run, 2);
        assert(longer.skip(1) =~= Seq::empty());
        let (staged, step) = service.handle(last, diag);
        assert(seq![step] + Seq::<StepSpec>::empty() =~= Seq::<StepSpec>::empty().push(step));
    } else {
        let (staged, first) = service.handle(requests[0], diag);
        let next = ServiceSpec { staged, ..service };
        lemma_run_push(next, requests.skip(1), last, diag);
        assert(longer.skip(1) =~= requests.skip(1).push(last));
        let (before, steps) = run(next, requests.skip(1), diag);
        let step = before.handle(last, diag).1;
        assert(seq![first] + steps.push(step) =~= (seq![first] + steps).push(step));
    }
}

/// The SET requests from `offset` on stage the rest of the bytes.
proof fn lemma_stage(
    service: ServiceSpec,
    encoded: Seq<u8>,
    offset: nat,
    diag: Seq<Seq<u8>>,
)
    requires
        encoded.len() <= TOPOLOGY_BUF_LEN,
        offset <= encoded.len(),
        offset == 0 || service.staged == encoded.take(offset as int),
    ensures
        ({
            let requests = session::set_requests_from(encoded, offset);
            let (after, steps) = run(service, requests, diag);
            &&& after == (ServiceSpec { staged: encoded, ..service })
            &&& steps.len() == requests.len()
            &&& forall|i: int|
                0 <= i < steps.len() ==> steps[i] == vendor::status_reply(
                    CMD_SET_TOPOLOGY,
                    STATUS_OK,
                )
        }),
    decreases encoded.len() - offset,
{
    let requests = session::set_requests_from(encoded, offset);
    let end = session::chunk_end(encoded.len() as int, offset as int);
    let request = session::set_request(encoded, offset as int, end);
    let before = if offset == 0 {
        Seq::empty()
    } else {
        service.staged
    };
    assert(request[0] == CMD_SET_TOPOLOGY);
    assert(request[1] == offset as u8);
    assert(request.skip(2) =~= encoded.subrange(offset as int, end));
    assert(before + request.skip(2) =~= encoded.take(end));
    let (staged, step) = service.handle(request, diag);
    assert(staged == encoded.take(end));
    let next = ServiceSpec { staged, ..service };
    if end >= encoded.len() {
        assert(requests.skip(1) =~= Seq::empty());
        assert(encoded.take(end) =~= encoded);
        assert(run(next, requests.skip(1), diag).1 =~= Seq::empty());
    } else {
        lemma_stage(next, encoded, end as nat, diag);
        assert(requests.skip(1) =~= session::set_requests_from(encoded, end as nat));
    }
}

/// The packets that a host sends to write a topology are all answered with success
/// and stage its encoding, whatever was staged before; the commit then asks for the
/// topology to be stored if it is valid, and is answered `STATUS_ERR_INVALID` if it
/// is not.
pub proof fn written_topologies_arrive(
    service: ServiceSpec,
    topology: TopologySpec,
    diag: Seq<Seq<u8>>,
)
    requires
        topology.probes.len() <= MAX_PROBES,
        topology.uarts.len() <= MAX_UARTS,
        wire::topology_reads_back(topology),
    ensures
        ({
            let encoded = wire::topology_encoding(topology);
            let requests = session::set_requests(encoded);
            let (after, steps) = run(service, requests, diag);
            &&& after == (ServiceSpec { staged: encoded, ..service })
            &&& steps.len() == requests.len()
            &&& forall|i: int|
                0 <= i < steps.len() - 1 ==> steps[i] == vendor::status_reply(
                    CMD_SET_TOPOLOGY,
                    STATUS_OK,
                )
            &&& steps.last() == if topology.verdict(service.limits, service.profile) is Ok {
                StepSpec::StoreTopology(topology)
            } else {
                vendor::status_reply(CMD_COMMIT, STATUS_ERR_INVALID)
            }
        }),
{
    wire::topology_encodings_are_short(topology);
    let encoded = wire::topology_encoding(topology);
    let chunks = session::set_requests_from(encoded, 0);
    let commit = seq![CMD_COMMIT, encoded.len() as u8];
    lemma_stage(service, encoded, 0, diag);
    lemma_run_push(service, chunks, commit, diag);
    assert(commit[0] == CMD_COMMIT && commit[1] == encoded.len());
}

/// What a host reads that asks for chunk after chunk, having collected `buf`.
pub open spec fn read_from(service: ServiceSpec, buf: Seq<u8>, diag: Seq<Seq<u8>>) -> Result<
    Seq<u8>,
    SessionError,
>
    decreases 256 - buf.len(),
{
    match service.handle(seq![CMD_GET_TOPOLOGY, buf.len() as u8], diag).1 {
        StepSpec::Reply { response, .. } => match session::chunk_verdict(buf, response) {
            Err(e) => Err(e),
            Ok((collected, complete)) => if complete || collected.len() <= buf.len()
                || collected.len() > 255 {
                Ok(collected)
            } else {
                read_from(service, collected, diag)
            },
        },
        _ => Ok(buf),
    }
}

proof fn lemma_read_from(service: ServiceSpec, have: nat, diag: Seq<Seq<u8>>)
    requires
        wire::topology_encoding(service.active).len() <= TOPOLOGY_BUF_LEN,
        have <= wire::topology_encoding(service.active).len(),
    ensures
        read_from(service, wire::topology_encoding(service.active).take(have as int), diag) == Ok::<
            Seq<u8>,
            SessionError,
        >(wire::topology_encoding(service.active)),
    decreases wire::topology_encoding(service.active).len() - have,
{
    let encoded = wire::topology_encoding(service.active);
    let buf = encoded.take(have as int);
    let request = seq![CMD_GET_TOPOLOGY, buf.len() as u8];
    let n = vendor::chunk_len(encoded.len() as int, have as int);
    assert(request[0] == CMD_GET_TOPOLOGY && request[1] == have);
    let chunk = encoded.subrange(have as int, have + n);
    let response = seq![CMD_GET_TOPOLOGY, STATUS_OK] + (seq![encoded.len() as u8] + chunk);
    assert(service.handle(request, diag).1 == vendor::payload_reply(
        CMD_GET_TOPOLOGY,
        seq![encoded.len() as u8] + chunk,
    ));
    assert(response[0] == CMD_GET_TOPOLOGY && response[1] == STATUS_OK);
    assert(response[2] == encoded.len());
    assert(response.skip(3) =~= chunk);
    if have == encoded.len() {
        assert(buf =~= encoded);
    } else {
        assert(buf + chunk =~= encoded.take(have + n));
        if have + n >= encoded.len() {
            assert((buf + chunk).take(encoded.len() as int) =~= encoded);
        } else {
            lemma_read_from(service, (have + n) as nat, diag);
        }
    }
}

/// A host that reads the topology chunk by chunk collects exactly the encoding of
/// the active topology, and decodes that topology.
pub proof fn active_topologies_read_back(service: ServiceSpec, diag: Seq<Seq<u8>>)
    requires
        service.active.probes.len() <= MAX_PROBES,
        service.active.uarts.len() <= MAX_UARTS,
        wire::topology_reads_back(service.active),
    ensures
        read_from(service, Seq::empty(), diag) matches Ok(bytes) && bytes
            == wire::topology_encoding(service.active) && wire::topology_decoding(
            bytes,
            usize::BITS as nat,
        ) == Some(service.active),
{
    wire::topology_encodings_are_short(service.active);
    lemma_read_from(service, 0, diag);
    assert(wire::topology_encoding(service.active).take(0) =~= Seq::empty());
}

/// A host that asks for firmware information reads the information of the service.
pub proof fn firmware_info_reads_back(service: ServiceSpec, diag: Seq<Seq<u8>>)
    requires
        wire::info_reads_back(service.info),
    ensures
        service.handle(seq![CMD_INFO], diag).1 matches StepSpec::Reply { response, .. }
            && session::info_verdict(response) == Ok::<_, SessionErrorSpec>(service.info),
{
    let payload = wire::info_encoding(service.info);
    let response = seq![CMD_INFO, STATUS_OK] + payload;
    assert(response.skip(2) =~= payload);
}

/// A valid profile that a host sends is asked to be stored. Once it is, the host
/// reads it back, and the next commit is held to it.
pub proof fn stored_profiles_take_effect(
    service: ServiceSpec,
    profile: BoardProfile,
    diag: Seq<Seq<u8>>,
)
    requires
        wire::profile_reads_back(profile),
        profile.verdict(service.limits) is Ok,
    ensures
        service.handle(seq![CMD_SET_PROFILE] + wire::profile_encoding(profile), diag) == (
            service.staged,
            StepSpec::StoreProfile(profile),
        ),
        ({
            let after = ServiceSpec { profile, ..service };
            &&& after.handle(seq![CMD_GET_PROFILE], diag).1 matches StepSpec::Reply {
                response,
                ..
            } && session::profile_verdict(response) == Ok::<_, SessionErrorSpec>(profile)
            &&& after.commit(seq![CMD_COMMIT, after.staged.len() as u8]) matches
                StepSpec::StoreTopology(topology) ==> topology.verdict(
                service.limits,
                profile,
            ) is Ok
        }),
{
    let encoded = wire::profile_encoding(profile);
    let request = seq![CMD_SET_PROFILE] + encoded;
    assert(request[0] == CMD_SET_PROFILE);
    assert(request.skip(1) =~= encoded);
    let response = seq![CMD_GET_PROFILE, STATUS_OK] + encoded;
    assert(response.skip(2) =~= encoded);
}

/// However long the requests are, no more is ever staged than the buffer holds.
pub proof fn staging_stays_within_the_buffer(
    service: ServiceSpec,
    request: Seq<u8>,
    diag: Seq<Seq<u8>>,
)
    requires
        service.staged.len() <= TOPOLOGY_BUF_LEN,
    ensures
        service.handle(request, diag).0.len() <= TOPOLOGY_BUF_LEN,
{
}

/// Only a valid topology is ever asked to be stored.
pub proof fn only_valid_topologies_are_stored(
    service: ServiceSpec,
    request: Seq<u8>,
    diag: Seq<Seq<u8>>,
)
    ensures
        service.handle(request, diag).1 matches StepSpec::StoreTopology(topology)
            ==> topology.verdict(service.limits, service.profile) is Ok,
{
}

} // verus!
