use vstd::prelude::*;

verus! {

/// How the members of a circuit authorize one another.
#[derive(Debug, Clone, Copy, PartialEq, Eq)]
pub enum AuthorizationType {
    TrustAuthorization,
}

/// Which persistence the circuit asks of its members.
#[derive(Debug, Clone, Copy, PartialEq, Eq)]
pub enum PersistenceType {
    AnyPersistence,
}

/// How messages are routed on the circuit.
#[derive(Debug, Clone, Copy, PartialEq, Eq)]
pub enum RouteType {
    AnyRoute,
}

/// A member node of a circuit: its identity and its network endpoint.
#[derive(Debug, Clone, PartialEq, Eq)]
pub struct SplinterNode {
    pub node_id: String,
    pub endpoint: String,
}

/// A service of a circuit's roster and the nodes allowed to host it.
#[derive(Debug, Clone, PartialEq, Eq)]
pub struct SplinterService {
    pub service_id: String,
    pub service_type: String,
    pub allowed_nodes: Vec<String>,
}

/// A proposed circuit.
#[derive(Debug, Clone, PartialEq, Eq)]
pub struct Circuit {
    pub circuit_id: String,
    pub members: Vec<SplinterNode>,
    pub roster: Vec<SplinterService>,
    pub authorization_type: AuthorizationType,
    pub persistence: PersistenceType,
    pub routes: RouteType,
    pub circuit_management_type: String,
    pub application_metadata: Vec<u8>,
    pub protocol_version: i32,
}

/// The kind of a circuit proposal; only creation is modelled.
#[derive(Debug, Clone, Copy, PartialEq, Eq)]
pub enum ProposalType {
    Create,
}

/// An open proposal: the circuit, its id and the hex digest of its encoding.
#[derive(Debug, Clone, PartialEq, Eq)]
pub struct CircuitProposal {
    pub proposal_type: ProposalType,
    pub circuit_id: String,
    pub circuit_hash: String,
    pub circuit_proposal: Circuit,
}

impl SplinterNode {
    pub fn new(node_id: &str, endpoint: &str) -> (r: SplinterNode)
        ensures
            r.node_id@ == node_id@,
            r.endpoint@ == endpoint@,
    {
        SplinterNode { node_id: node_id.to_owned(), endpoint: endpoint.to_owned() }
    }

    /// A copy of the node, field for field.
    pub fn duplicate(&self) -> (r: SplinterNode)
        ensures
            r == *self,
    {
        SplinterNode { node_id: self.node_id.clone(), endpoint: self.endpoint.clone() }
    }
}

impl SplinterService {
    pub fn new(service_id: &str, service_type: &str) -> (r: SplinterService)
        ensures
            r.service_id@ == service_id@,
            r.service_type@ == service_type@,
            r.allowed_nodes@.len() == 0,
    {
        SplinterService {
            service_id: service_id.to_owned(),
            service_type: service_type.to_owned(),
            allowed_nodes: Vec::new(),
        }
    }
}

} // verus!
