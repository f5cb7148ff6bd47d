//! The admin service: its lifecycle, the store of open proposals, the
//! handling of inbound envelopes and the origination of new proposals.
//!
//! The service makes the decisions; the caller performs the network work that
//! they call for. Binding to the registry, connecting to peers and sending the
//! returned messages happen outside, and their outcomes are handed in.
use vstd::prelude::*;
use vstd::string::StringExecFns;
use crate::circuit::{Circuit, CircuitProposal, ProposalType, SplinterNode};
use crate::codec::{
    circuit_bytes, create_request_bytes, decode_circuit, decode_envelope, encode_circuit,
    encode_envelope, envelope_bytes, lemma_circuit_id_determined, lemma_envelope_determined,
    CIRCUIT_CREATE_REQUEST,
};
use crate::hashing::{circuit_hash_of, sha256};

verus! {

/// The errors of the admin service; each carries a description of its cause.
#[derive(Debug, Clone, PartialEq, Eq)]
pub enum ServiceError {
    NotStarted,
    StartFailure(String),
    StopFailure(String),
    InvalidMessageFormat(String),
    UnableToHandleMessage(String),
    PoisonedLock(String),
    SendFailure(String),
}

/// A message to send: the admin service it is for, and the envelope's bytes.
#[derive(Debug, Clone, PartialEq, Eq)]
pub struct OutboundMessage {
    pub recipient: String,
    pub payload: Vec<u8>,
}

/// The network identity of the admin service of a node.
pub open spec fn admin_service_id_of(node_id: Seq<char>) -> Seq<char> {
    "admin::"@ + node_id
}

/// The admin service identity of a node.
pub fn admin_service_id(node_id: &str) -> (r: String)
    ensures
        r@ == admin_service_id_of(node_id@),
{
    let prefix = String::from_str("admin::");
    prefix.concat(node_id)
}

/// The members of a circuit other than the node `self_id`, in member order.
pub open spec fn remote_members(self_id: Seq<char>, members: Seq<SplinterNode>) -> Seq<SplinterNode>
    decreases members.len(),
{
    if members.len() == 0 {
        Seq::empty()
    } else {
        let rest = remote_members(self_id, members.drop_last());
        if members.last().node_id@ == self_id {
            rest
        } else {
            rest.push(members.last())
        }
    }
}

/// The open proposal for `circuit_id`; a later entry for an id stands over an
/// earlier one.
pub open spec fn lookup(proposals: Seq<CircuitProposal>, circuit_id: Seq<char>) -> Option<CircuitProposal>
    decreases proposals.len(),
{
    if proposals.len() == 0 {
        None
    } else if proposals.last().circuit_id@ == circuit_id {
        Some(proposals.last())
    } else {
        lookup(proposals.drop_last(), circuit_id)
    }
}

proof fn lemma_lookup_update(s: Seq<CircuitProposal>, j: int, p: CircuitProposal, k: Seq<char>)
    requires
        0 <= j < s.len(),
        s[j].circuit_id@ == p.circuit_id@,
        forall|i: int| j < i < s.len() ==> s[i].circuit_id@ != p.circuit_id@,
    ensures
        lookup(s.update(j, p), k) == if k == p.circuit_id@ {
            Some(p)
        } else {
            lookup(s, k)
        },
    decreases s.len(),
{
    let u = s.update(j, p);
    if j == s.len() - 1 {
        assert(u.drop_last() =~= s.drop_last());
        assert(u.last() == p);
    } else {
        assert(u.drop_last() =~= s.drop_last().update(j, p));
        assert(u.last() == s.last());
        lemma_lookup_update(s.drop_last(), j, p, k);
    }
}

/// The open proposals of one node, keyed by circuit id.
pub struct AdminServiceState {
    open_proposals: Vec<CircuitProposal>,
}

impl AdminServiceState {
    pub closed spec fn proposals(&self) -> Seq<CircuitProposal> {
        self.open_proposals@
    }

    pub open spec fn proposal(&self, circuit_id: Seq<char>) -> Option<CircuitProposal> {
        lookup(self.proposals(), circuit_id)
    }

    pub fn new() -> (r: AdminServiceState)
        ensures
            forall|k: Seq<char>| r.proposal(k) is None,
    {
        AdminServiceState { open_proposals: Vec::new() }
    }

    /// The position of the entry that stands for `circuit_id`, if any.
    fn find(&self, circuit_id: &String) -> (r: Option<usize>)
        ensures
            r matches Some(j) ==> j < self.proposals().len() && self.proposals()[j as int].circuit_id@
                == circuit_id@ && (forall|i: int|
                j < i < self.proposals().len() ==> self.proposals()[i].circuit_id@ != circuit_id@)
                && self.proposal(circuit_id@) == Some(self.proposals()[j as int]),
            r is None ==> self.proposal(circuit_id@) is None,
    {
        let ghost s = self.open_proposals@;
        let mut i: usize = self.open_proposals.len();
        assert(s.subrange(0, i as int) =~= s);
        while i > 0
            invariant
                i <= s.len(),
                s == self.open_proposals@,
                forall|t: int| i <= t < s.len() ==> s[t].circuit_id@ != circuit_id@,
                lookup(s, circuit_id@) == lookup(s.subrange(0, i as int), circuit_id@),
            decreases i,
        {
            let ghost prefix = s.subrange(0, i as int);
            assert(prefix.drop_last() =~= s.subrange(0, i - 1));
            if self.open_proposals[i - 1].circuit_id == *circuit_id {
                return Some(i - 1);
            }
            i = i - 1;
        }
        None
    }

    /// The proposal open for `circuit_id`, if any.
    pub fn get(&self, circuit_id: &String) -> (r: Option<&CircuitProposal>)
        ensures
            r matches Some(p) ==> self.proposal(circuit_id@) == Some(*p),
            r is None ==> self.proposal(circuit_id@) is None,
    {
        match self.find(circuit_id) {
            Some(j) => Some(&self.open_proposals[j]),
            None => None,
        }
    }

    /// Whether a proposal is open for `circuit_id`.
    pub fn has_proposal(&self, circuit_id: &String) -> (r: bool)
        ensures
            r == self.proposal(circuit_id@) is Some,
    {
        self.find(circuit_id).is_some()
    }

    /// Stores a proposal under its circuit id, over any earlier one.
    pub fn add_proposal(&mut self, circuit_proposal: CircuitProposal)
        ensures
            final(self).proposal(circuit_proposal.circuit_id@) == Some(circuit_proposal),
            forall|k: Seq<char>| k != circuit_proposal.circuit_id@ ==> final(self).proposal(k)
                == old(self).proposal(k),
    {
        match self.find(&circuit_proposal.circuit_id) {
            Some(j) => {
                proof {
                    lemma_lookup_update(self.open_proposals@, j as int, circuit_proposal, circuit_proposal.circuit_id@);
                    assert forall|k: Seq<char>| k != circuit_proposal.circuit_id@ implies lookup(
                        self.open_proposals@.update(j as int, circuit_proposal),
                        k,
                    ) == lookup(self.open_proposals@, k) by {
                        lemma_lookup_update(self.open_proposals@, j as int, circuit_proposal, k);
                    }
                }
                self.open_proposals.set(j, circuit_proposal);
            },
            None => {
                let ghost before = self.open_proposals@;
                self.open_proposals.push(circuit_proposal);
                assert(self.open_proposals@.drop_last() =~= before);
            },
        }
    }
}

/// The admin service of one node.
pub struct AdminService {
    node_id: String,
    service_id: String,
    started: bool,
    admin_service_state: AdminServiceState,
}

/// The proposal that registers `c`, with its content hash.
pub open spec fn registers(p: CircuitProposal, c: Circuit) -> bool {
    &&& p.proposal_type == ProposalType::Create
    &&& p.circuit_id@ == c.circuit_id@
    &&& p.circuit_hash@ == circuit_hash_of(c)
    &&& circuit_bytes(p.circuit_proposal) == circuit_bytes(c)
}

/// `post` holds the open proposals of `pre`, and a proposal that registers `c`.
pub open spec fn stored(pre: AdminService, post: AdminService, c: Circuit) -> bool {
    &&& post.open_proposal(c.circuit_id@) matches Some(p) && registers(p, c)
    &&& forall|k: Seq<char>| k != c.circuit_id@ ==> post.open_proposal(k) == pre.open_proposal(k)
    &&& post.node_id_view() == pre.node_id_view()
    &&& post.service_id_view() == pre.service_id_view()
    &&& post.is_started() == pre.is_started()
}

/// What handling the inbound envelope `bytes` does to `pre`, with result `r`.
pub open spec fn handled(pre: AdminService, post: AdminService, bytes: Seq<u8>, r: Result<(), ServiceError>) -> bool {
    &&& !pre.is_started() ==> r == Err::<(), ServiceError>(ServiceError::NotStarted) && post == pre
    &&& (pre.is_started() && forall|a: u32, p: Seq<u8>| envelope_bytes(a, p) != bytes) ==> (r matches Err(
        ServiceError::InvalidMessageFormat(_),
    ) && post == pre)
    &&& forall|a: u32, p: Seq<u8>|
        pre.is_started() && #[trigger] envelope_bytes(a, p) == bytes && a != CIRCUIT_CREATE_REQUEST ==> (r is Ok
            && post == pre)
    &&& forall|p: Seq<u8>|
        pre.is_started() && #[trigger] envelope_bytes(CIRCUIT_CREATE_REQUEST, p) == bytes && (forall|c: Circuit|
            circuit_bytes(c) != p) ==> (r matches Err(ServiceError::InvalidMessageFormat(_)) && post == pre)
    &&& forall|c: Circuit|
        pre.is_started() && #[trigger] create_request_bytes(c) == bytes && pre.open_proposal(c.circuit_id@) is Some
            ==> (r is Ok && post == pre)
    &&& forall|c: Circuit|
        pre.is_started() && #[trigger] create_request_bytes(c) == bytes && pre.open_proposal(c.circuit_id@) is None
            ==> ((r is Ok && stored(pre, post, c)) || (r matches Err(ServiceError::UnableToHandleMessage(_))
            && post == pre))
}

/// The messages that carry the proposal of `c` to each of `remote`, in order.
pub open spec fn fans_out(msgs: Seq<OutboundMessage>, remote: Seq<SplinterNode>, c: Circuit) -> bool {
    &&& msgs.len() == remote.len()
    &&& forall|i: int| 0 <= i < msgs.len() ==> #[trigger] msgs[i].recipient@ == admin_service_id_of(remote[i].node_id@)
        && msgs[i].payload@ == create_request_bytes(c)
}

/// What proposing `c` does to `pre`, where `connection` is the outcome of
/// connecting to its remote members, with result `r`.
pub open spec fn proposed(
    pre: AdminService,
    post: AdminService,
    c: Circuit,
    connection: Result<(), String>,
    r: Result<Vec<OutboundMessage>, ServiceError>,
) -> bool {
    &&& !pre.is_started() ==> r == Err::<Vec<OutboundMessage>, ServiceError>(ServiceError::NotStarted) && post == pre
    &&& pre.is_started() ==> (connection matches Err(e) ==> r == Err::<Vec<OutboundMessage>, ServiceError>(
        ServiceError::UnableToHandleMessage(e),
    ) && post == pre)
    &&& (pre.is_started() && connection is Ok) ==> ((r matches Ok(msgs) && stored(pre, post, c)
        && post.open_proposal(c.circuit_id@)->Some_0.circuit_proposal == c
        && fans_out(msgs@, remote_members(pre.node_id_view(), c.members@), c))
        || (r matches Err(ServiceError::UnableToHandleMessage(_)) && post == pre))
}

impl AdminService {
    pub closed spec fn node_id_view(&self) -> Seq<char> {
        self.node_id@
    }

    pub closed spec fn service_id_view(&self) -> Seq<char> {
        self.service_id@
    }

    pub closed spec fn is_started(&self) -> bool {
        self.started
    }

    /// The open proposal for a circuit id, if any.
    pub closed spec fn open_proposal(&self, circuit_id: Seq<char>) -> Option<CircuitProposal> {
        self.admin_service_state.proposal(circuit_id)
    }

    /// A service for the node `node_id`, not started, with no open proposal.
    pub fn new(node_id: &str) -> (r: AdminService)
        ensures
            r.node_id_view() == node_id@,
            r.service_id_view() == admin_service_id_of(node_id@),
            !r.is_started(),
            forall|k: Seq<char>| r.open_proposal(k) is None,
    {
        AdminService {
            node_id: String::from_str(node_id),
            service_id: admin_service_id(node_id),
            started: false,
            admin_service_state: AdminServiceState::new(),
        }
    }

    /// The proposal open on this node for `circuit_id`, if any.
    pub fn get_proposal(&self, circuit_id: &String) -> (r: Option<&CircuitProposal>)
        ensures
            r matches Some(p) ==> self.open_proposal(circuit_id@) == Some(*p),
            r is None ==> self.open_proposal(circuit_id@) is None,
    {
        self.admin_service_state.get(circuit_id)
    }

    /// This service's network identity.
    pub fn service_id(&self) -> (r: &str)
        ensures
            r@ == self.service_id_view(),
    {
        self.service_id.as_str()
    }

    pub fn service_type(&self) -> (r: &'static str)
        ensures
            r@ == "admin"@,
    {
        "admin"
    }

    /// Starts the service, given the outcome of binding its identity in the
    /// network registry.
    pub fn start(&mut self, binding: Result<(), String>) -> (r: Result<(), ServiceError>)
        ensures
            binding is Ok ==> r is Ok && final(self).is_started() && final(self).node_id_view() == old(self).node_id_view()
                && final(self).service_id_view() == old(self).service_id_view() && forall|k: Seq<char>|
                final(self).open_proposal(k) == old(self).open_proposal(k),
            binding matches Err(e) ==> r == Err::<(), ServiceError>(ServiceError::StartFailure(e))
                && *final(self) == *old(self),
    {
        match binding {
            Ok(()) => {
                self.started = true;
                Ok(())
            },
            Err(e) => Err(ServiceError::StartFailure(e)),
        }
    }

    /// Stops the service, given the outcome of releasing its identity in the
    /// network registry.
    pub fn stop(&mut self, unbinding: Result<(), String>) -> (r: Result<(), ServiceError>)
        ensures
            unbinding is Ok ==> r is Ok && !final(self).is_started() && final(self).node_id_view() == old(self).node_id_view()
                && final(self).service_id_view() == old(self).service_id_view() && forall|k: Seq<char>|
                final(self).open_proposal(k) == old(self).open_proposal(k),
            unbinding matches Err(e) ==> r == Err::<(), ServiceError>(ServiceError::StopFailure(e))
                && *final(self) == *old(self),
    {
        match unbinding {
            Ok(()) => {
                self.started = false;
                Ok(())
            },
            Err(e) => Err(ServiceError::StopFailure(e)),
        }
    }

    /// Ends the service.
    pub fn destroy(self) -> (r: Result<(), ServiceError>)
        ensures
            r is Ok,
    {
        Ok(())
    }

    /// Handles an inbound envelope: registers the circuit of a create request
    /// unless a proposal for its id is already open, and passes over any
    /// other action.
    #[verifier::rlimit(50)]
    pub fn handle_message(&mut self, message_bytes: &[u8]) -> (r: Result<(), ServiceError>)
        ensures
            handled(*old(self), *final(self), message_bytes@, r),
    {
        if !self.started {
            return Err(ServiceError::NotStarted);
        }
        let total = message_bytes.len();
        let envelope = match decode_envelope(message_bytes) {
            Some(e) => e,
            None => {
                return Err(
                    ServiceError::InvalidMessageFormat(String::from_str("malformed envelope")),
                );
            },
        };
        proof {
            assert forall|a: u32, p: Seq<u8>| #[trigger] envelope_bytes(a, p) == message_bytes@ implies a
                == envelope.action && p == envelope.payload@ by {
                lemma_envelope_determined(a, p, envelope.action, envelope.payload@);
            }
        }
        if envelope.action != CIRCUIT_CREATE_REQUEST {
            return Ok(());
        }
        let proposed_circuit = match decode_circuit(envelope.payload.as_slice()) {
            Some(c) => c,
            None => {
                return Err(
                    ServiceError::InvalidMessageFormat(String::from_str("malformed circuit")),
                );
            },
        };
        proof {
            assert forall|c: Circuit| #[trigger] create_request_bytes(c) == message_bytes@ implies c.circuit_id@
                == proposed_circuit.circuit_id@ && circuit_bytes(c) == circuit_bytes(proposed_circuit) by {
                lemma_envelope_determined(CIRCUIT_CREATE_REQUEST, circuit_bytes(c), envelope.action, envelope.payload@);
                lemma_circuit_id_determined(c, proposed_circuit);
            }
        }
        if self.admin_service_state.has_proposal(&proposed_circuit.circuit_id) {
            return Ok(());
        }
        let circuit_hash = match sha256(&proposed_circuit) {
            Ok(h) => h,
            Err(e) => return Err(ServiceError::UnableToHandleMessage(e)),
        };
        let proposal = CircuitProposal {
            proposal_type: ProposalType::Create,
            circuit_id: proposed_circuit.circuit_id.clone(),
            circuit_hash,
            circuit_proposal: proposed_circuit,
        };
        self.admin_service_state.add_proposal(proposal);
        Ok(())
    }

    /// The members of `circuit` that this node connects to before proposing
    /// it: all but itself, in member order.
    pub fn peers_to_connect(&self, circuit: &Circuit) -> (r: Result<Vec<SplinterNode>, ServiceError>)
        ensures
            !self.is_started() ==> r == Err::<Vec<SplinterNode>, ServiceError>(ServiceError::NotStarted),
            self.is_started() ==> (r matches Ok(v) && v@ == remote_members(self.node_id_view(), circuit.members@)),
    {
        if !self.started {
            return Err(ServiceError::NotStarted);
        }
        let mut peers: Vec<SplinterNode> = Vec::new();
        let mut i: usize = 0;
        while i < circuit.members.len()
            invariant
                i <= circuit.members@.len(),
                peers@ == remote_members(self.node_id@, circuit.members@.subrange(0, i as int)),
            decreases circuit.members@.len() - i,
        {
            let node = &circuit.members[i];
            proof {
                let next = circuit.members@.subrange(0, i + 1);
                assert(next.drop_last() =~= circuit.members@.subrange(0, i as int));
            }
            if node.node_id != self.node_id {
                peers.push(node.duplicate());
            }
            i = i + 1;
        }
        assert(circuit.members@.subrange(0, i as int) =~= circuit.members@);
        Ok(peers)
    }

    /// Proposes a new circuit, given the outcome of connecting to each of its
    /// members other than this node. The proposal is stored over any earlier
    /// one for the same id, and one message is returned for each of those
    /// members, in member order, for the caller to send.
    pub fn propose_circuit(&mut self, proposed_circuit: Circuit, connection: Result<(), String>) -> (r: Result<Vec<OutboundMessage>, ServiceError>)
        ensures
            proposed(*old(self), *final(self), proposed_circuit, connection, r),
    {
        if !self.started {
            return Err(ServiceError::NotStarted);
        }
        if let Err(e) = connection {
            return Err(ServiceError::UnableToHandleMessage(e));
        }
        let circuit_hash = match sha256(&proposed_circuit) {
            Ok(h) => h,
            Err(e) => return Err(ServiceError::UnableToHandleMessage(e)),
        };
        let circuit_bytes = encode_circuit(&proposed_circuit);
        let envelope_bytes = encode_envelope(CIRCUIT_CREATE_REQUEST, circuit_bytes.as_slice());
        let mut messages: Vec<OutboundMessage> = Vec::new();
        let mut i: usize = 0;
        while i < proposed_circuit.members.len()
            invariant
                i <= proposed_circuit.members@.len(),
                envelope_bytes@ == create_request_bytes(proposed_circuit),
                fans_out(
                    messages@,
                    remote_members(self.node_id@, proposed_circuit.members@.subrange(0, i as int)),
                    proposed_circuit,
                ),
            decreases proposed_circuit.members@.len() - i,
        {
            let node = &proposed_circuit.members[i];
            proof {
                let next = proposed_circuit.members@.subrange(0, i + 1);
                assert(next.drop_last() =~= proposed_circuit.members@.subrange(0, i as int));
            }
            if node.node_id != self.node_id {
                let message = OutboundMessage {
                    recipient: admin_service_id(node.node_id.as_str()),
                    payload: vstd::slice::slice_to_vec(envelope_bytes.as_slice()),
                };
                messages.push(message);
            }
            i = i + 1;
        }
        assert(proposed_circuit.members@.subrange(0, i as int) =~= proposed_circuit.members@);
        let proposal = CircuitProposal {
            proposal_type: ProposalType::Create,
            circuit_id: proposed_circuit.circuit_id.clone(),
            circuit_hash,
            circuit_proposal: proposed_circuit,
        };
        self.admin_service_state.add_proposal(proposal);
        Ok(messages)
    }
}

/// Two inbound create requests for one circuit id, from the same sender or
/// from two, leave one open proposal for that id: the one the first of them
/// registered.
pub proof fn lemma_duplicate_create_keeps_first(
    s0: AdminService,
    s1: AdminService,
    s2: AdminService,
    c1: Circuit,
    c2: Circuit,
    r1: Result<(), ServiceError>,
    r2: Result<(), ServiceError>,
)
    requires
        handled(s0, s1, create_request_bytes(c1), r1),
        handled(s1, s2, create_request_bytes(c2), r2),
        s0.is_started(),
        s0.open_proposal(c1.circuit_id@) is None,
        c1.circuit_id@ == c2.circuit_id@,
        r1 is Ok,
    ensures
        r2 is Ok,
        s2 == s1,
        s2.open_proposal(c1.circuit_id@) matches Some(p) && registers(p, c1),
{
    assert(stored(s0, s1, c1));
    assert(s1.is_started());
}

/// A service that is not started refuses inbound envelopes and proposals
/// with `NotStarted`, and neither changes it.
pub proof fn lemma_not_started_refuses(
    pre: AdminService,
    after_message: AdminService,
    bytes: Seq<u8>,
    message_result: Result<(), ServiceError>,
    after_proposal: AdminService,
    c: Circuit,
    connection: Result<(), String>,
    proposal_result: Result<Vec<OutboundMessage>, ServiceError>,
)
    requires
        !pre.is_started(),
        handled(pre, after_message, bytes, message_result),
        proposed(pre, after_proposal, c, connection, proposal_result),
    ensures
        message_result == Err::<(), ServiceError>(ServiceError::NotStarted),
        after_message == pre,
        proposal_result == Err::<Vec<OutboundMessage>, ServiceError>(ServiceError::NotStarted),
        after_proposal == pre,
{
}

/// The peers of a proposal are the circuit's members other than the proposing
/// node: none of them is that node, each is a member, and every other member
/// is one of them.
pub proof fn lemma_remote_members(self_id: Seq<char>, members: Seq<SplinterNode>)
    ensures
        forall|i: int|
            0 <= i < remote_members(self_id, members).len() ==> (#[trigger] remote_members(self_id, members)[i]).node_id@
                != self_id && members.contains(remote_members(self_id, members)[i]),
        forall|j: int| 0 <= j < members.len() && #[trigger] members[j].node_id@ != self_id ==> remote_members(
            self_id,
            members,
        ).contains(members[j]),
    decreases members.len(),
{
    if members.len() > 0 {
        let init = members.drop_last();
        lemma_remote_members(self_id, init);
        let rest = remote_members(self_id, init);
        let remote = remote_members(self_id, members);
        assert forall|i: int| 0 <= i < remote.len() implies #[trigger] remote[i].node_id@ != self_id
            && members.contains(remote[i]) by {
            if i < rest.len() {
                assert(remote[i] == rest[i]);
                assert(remote_members(self_id, init)[i].node_id@ != self_id);
                assert(init.contains(rest[i]));
                let k = choose|k: int| 0 <= k < init.len() && init[k] == rest[i];
                assert(members[k] == init[k]);
            } else {
                assert(remote[i] == members.last());
                assert(members[members.len() - 1] == members.last());
            }
        }
        assert forall|j: int| 0 <= j < members.len() && #[trigger] members[j].node_id@ != self_id implies remote.contains(
            members[j],
        ) by {
            if j < members.len() - 1 {
                assert(init[j] == members[j]);
                assert(init[j].node_id@ != self_id);
                assert(rest.contains(init[j]));
                let k = choose|k: int| 0 <= k < rest.len() && rest[k] == init[j];
                assert(remote[k] == rest[k]);
            } else {
                assert(remote[remote.len() - 1] == members[j]);
            }
        }
    }
}

#[verifier::rlimit(40)]
/// A node that receives the proposal of a circuit from its proposer, and
/// registers it, holds the same content hash for it as the proposer.
pub proof fn lemma_received_hash_matches(
    proposer: AdminService,
    proposer_after: AdminService,
    c: Circuit,
    connection: Result<(), String>,
    messages: Vec<OutboundMessage>,
    i: int,
    receiver: AdminService,
    receiver_after: AdminService,
    r: Result<(), ServiceError>,
)
    requires
        proposed(proposer, proposer_after, c, connection, Ok(messages)),
        0 <= i < messages@.len(),
        handled(receiver, receiver_after, messages@[i].payload@, r),
        receiver.is_started(),
        receiver.open_proposal(c.circuit_id@) is None,
        r is Ok,
    ensures
        receiver_after.open_proposal(c.circuit_id@) matches Some(p) && proposer_after.open_proposal(
            c.circuit_id@,
        ) matches Some(q) && p.circuit_hash@ == q.circuit_hash@,
{
    assert(proposer.is_started());
    assert(connection is Ok);
    let remote = remote_members(proposer.node_id_view(), c.members@);
    assert(stored(proposer, proposer_after, c) && fans_out(messages@, remote, c));
    assert(messages@[i].recipient@ == admin_service_id_of(remote[i].node_id@));
    assert(messages@[i].payload@ == create_request_bytes(c));
    assert(stored(receiver, receiver_after, c));
}

} // verus!
