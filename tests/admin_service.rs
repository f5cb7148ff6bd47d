use splinter_admin::circuit::{
    AuthorizationType, Circuit, PersistenceType, ProposalType, RouteType, SplinterNode,
    SplinterService,
};
use splinter_admin::codec::{
    decode_circuit, decode_envelope, encode_circuit, encode_envelope, CIRCUIT_CREATE_REQUEST,
};
use splinter_admin::hashing::{sha256, to_hex};
use splinter_admin::service::{admin_service_id, AdminService, ServiceError};

fn splinter_node(node_id: &str, endpoint: &str) -> SplinterNode {
    SplinterNode::new(node_id, endpoint)
}

fn splinter_service(service_id: &str, service_type: &str) -> SplinterService {
    SplinterService::new(service_id, service_type)
}

fn circuit(circuit_id: &str, members: Vec<SplinterNode>, roster: Vec<SplinterService>) -> Circuit {
    Circuit {
        circuit_id: circuit_id.to_string(),
        members,
        roster,
        authorization_type: AuthorizationType::TrustAuthorization,
        persistence: PersistenceType::AnyPersistence,
        routes: RouteType::AnyRoute,
        circuit_management_type: "test app auth handler".to_string(),
        application_metadata: vec![],
        protocol_version: 0,
    }
}

fn started(node_id: &str) -> AdminService {
    let mut service = AdminService::new(node_id);
    service.start(Ok(())).expect("Service should have started correctly");
    service
}

/// Test that a circuit creation creates the correct connections and sends the appropriate
/// messages.
#[test]
fn test_propose_circuit() {
    let mut admin_service = started("test-node");

    let mut proposed_circuit = circuit(
        "test_propose_circuit",
        vec![
            splinter_node("test-node", "tcp://someplace:8000"),
            splinter_node("other-node", "tcp://otherplace:8000"),
        ],
        vec![splinter_service("service-a", "sabre"), splinter_service("service-b", "sabre")],
    );
    proposed_circuit.circuit_management_type = "test app auth handler".into();

    let peers = admin_service.peers_to_connect(&proposed_circuit).unwrap();
    let messages = admin_service
        .propose_circuit(proposed_circuit.clone(), Ok(()))
        .expect("The proposal was not handled correctly");

    let message = messages.get(0).expect("A message should have been sent");
    assert_eq!("admin::other-node".to_string(), message.recipient);

    let envelope = decode_envelope(&message.payload).expect("The message could not be parsed");
    assert_eq!(CIRCUIT_CREATE_REQUEST, envelope.action);
    assert_eq!(proposed_circuit, decode_circuit(&envelope.payload).unwrap());

    assert_eq!(Some(&"other-node".to_string()), peers.get(0).map(|n| &n.node_id));
}

fn scenario_circuit() -> Circuit {
    circuit(
        "c1",
        vec![splinter_node("A", "tcp://a:8000"), splinter_node("B", "tcp://b:8000")],
        vec![splinter_service("svc-a", "sabre"), splinter_service("svc-b", "sabre")],
    )
}

#[test]
fn proposal_from_a_connects_and_sends_to_b() {
    let mut a = started("A");
    let c1 = scenario_circuit();
    let peers = a.peers_to_connect(&c1).unwrap();
    assert_eq!(peers, vec![splinter_node("B", "tcp://b:8000")]);

    let messages = a.propose_circuit(c1.clone(), Ok(())).unwrap();
    assert_eq!(messages.len(), 1);
    assert_eq!(messages[0].recipient, "admin::B");
    let envelope = decode_envelope(&messages[0].payload).unwrap();
    assert_eq!(envelope.action, CIRCUIT_CREATE_REQUEST);
    assert_eq!(decode_circuit(&envelope.payload).unwrap(), c1);

    let proposal = a.get_proposal(&"c1".to_string()).unwrap();
    assert_eq!(proposal.proposal_type, ProposalType::Create);
    assert_eq!(proposal.circuit_id, "c1");
    assert_eq!(proposal.circuit_proposal, c1);
}

#[test]
fn receiver_registers_same_hash_as_proposer() {
    let mut a = started("A");
    let mut b = started("B");
    let c1 = scenario_circuit();
    let messages = a.propose_circuit(c1.clone(), Ok(())).unwrap();
    b.handle_message(&messages[0].payload).unwrap();

    let at_a = a.get_proposal(&"c1".to_string()).unwrap();
    let at_b = b.get_proposal(&"c1".to_string()).unwrap();
    assert_eq!(at_b.proposal_type, ProposalType::Create);
    assert_eq!(at_b.circuit_hash, at_a.circuit_hash);
    assert_eq!(at_b.circuit_proposal, c1);
}

#[test]
fn duplicate_create_keeps_first_proposal() {
    let mut b = started("B");
    let first = scenario_circuit();
    let mut second = scenario_circuit();
    second.circuit_management_type = "another handler".to_string();
    let first_bytes = encode_envelope(CIRCUIT_CREATE_REQUEST, &encode_circuit(&first));
    let second_bytes = encode_envelope(CIRCUIT_CREATE_REQUEST, &encode_circuit(&second));

    b.handle_message(&first_bytes).unwrap();
    let first_hash = b.get_proposal(&"c1".to_string()).unwrap().circuit_hash.clone();
    b.handle_message(&second_bytes).unwrap();
    b.handle_message(&first_bytes).unwrap();

    let kept = b.get_proposal(&"c1".to_string()).unwrap();
    assert_eq!(kept.circuit_hash, first_hash);
    assert_eq!(kept.circuit_hash, sha256(&first).unwrap());
    assert_eq!(kept.circuit_proposal, first);
}

#[test]
fn hashing_is_deterministic() {
    let c = scenario_circuit();
    assert_eq!(encode_circuit(&c), encode_circuit(&c.clone()));
    assert_eq!(sha256(&c).unwrap(), sha256(&c).unwrap());
    let mut other = scenario_circuit();
    other.circuit_id = "c2".to_string();
    assert_ne!(sha256(&c).unwrap(), sha256(&other).unwrap());
}

#[test]
fn hash_is_hex_of_sha256_of_encoding() {
    let c = scenario_circuit();
    let digest = openssl::sha::sha256(&encode_circuit(&c));
    let expected: String = digest.iter().map(|b| format!("{:x}", b)).collect();
    assert_eq!(sha256(&c).unwrap(), expected);
    assert!(sha256(&c).unwrap().len() <= 64);
}

#[test]
fn to_hex_writes_bytes_without_leading_zeros() {
    assert_eq!(to_hex(&[0x00, 0x0f, 0x10, 0xab, 0xff]), "0f10abff");
    assert_eq!(to_hex(&[]), "");
}

#[test]
fn proposal_fans_out_to_every_other_member() {
    let mut a = started("A");
    let c = circuit(
        "abc",
        vec![
            splinter_node("A", "tcp://a:8000"),
            splinter_node("B", "tcp://b:8000"),
            splinter_node("C", "tcp://c:8000"),
        ],
        vec![],
    );
    let peers = a.peers_to_connect(&c).unwrap();
    let ids: Vec<&str> = peers.iter().map(|n| n.node_id.as_str()).collect();
    assert_eq!(ids, vec!["B", "C"]);

    let messages = a.propose_circuit(c.clone(), Ok(())).unwrap();
    let recipients: Vec<&str> = messages.iter().map(|m| m.recipient.as_str()).collect();
    assert_eq!(recipients, vec!["admin::B", "admin::C"]);
    for m in &messages {
        let envelope = decode_envelope(&m.payload).unwrap();
        assert_eq!(decode_circuit(&envelope.payload).unwrap(), c);
    }
}

#[test]
fn not_started_refuses_messages_and_proposals() {
    let mut a = AdminService::new("A");
    let c = scenario_circuit();
    let bytes = encode_envelope(CIRCUIT_CREATE_REQUEST, &encode_circuit(&c));
    assert_eq!(a.handle_message(&bytes), Err(ServiceError::NotStarted));
    assert_eq!(a.peers_to_connect(&c), Err(ServiceError::NotStarted));
    assert_eq!(a.propose_circuit(c.clone(), Ok(())), Err(ServiceError::NotStarted));

    a.start(Ok(())).unwrap();
    assert_eq!(a.handle_message(&bytes), Ok(()));
    a.stop(Ok(())).unwrap();
    assert_eq!(a.handle_message(&bytes), Err(ServiceError::NotStarted));
    assert_eq!(a.propose_circuit(c, Ok(())), Err(ServiceError::NotStarted));
}

#[test]
fn registry_failures_are_reported() {
    let mut a = AdminService::new("A");
    assert_eq!(
        a.start(Err("already bound".to_string())),
        Err(ServiceError::StartFailure("already bound".to_string()))
    );
    let bytes = encode_envelope(7, &[]);
    assert_eq!(a.handle_message(&bytes), Err(ServiceError::NotStarted));
    a.start(Ok(())).unwrap();
    assert_eq!(
        a.stop(Err("not bound".to_string())),
        Err(ServiceError::StopFailure("not bound".to_string()))
    );
    assert_eq!(a.handle_message(&bytes), Ok(()));
    assert_eq!(AdminService::new("A").destroy(), Ok(()));
}

#[test]
fn unknown_action_is_ignored() {
    let mut b = started("B");
    let bytes = encode_envelope(42, &[1, 2, 3]);
    assert_eq!(b.handle_message(&bytes), Ok(()));
    assert!(b.get_proposal(&"c1".to_string()).is_none());
}

#[test]
fn malformed_messages_are_rejected() {
    let mut b = started("B");
    assert!(matches!(b.handle_message(&[1, 2, 3]), Err(ServiceError::InvalidMessageFormat(_))));
    let bad_circuit = encode_envelope(CIRCUIT_CREATE_REQUEST, &[0, 0, 0]);
    assert!(matches!(
        b.handle_message(&bad_circuit),
        Err(ServiceError::InvalidMessageFormat(_))
    ));
    let mut trailing = encode_envelope(CIRCUIT_CREATE_REQUEST, &encode_circuit(&scenario_circuit()));
    trailing.push(0);
    assert!(matches!(b.handle_message(&trailing), Err(ServiceError::InvalidMessageFormat(_))));
    assert!(b.get_proposal(&"c1".to_string()).is_none());
}

#[test]
fn failed_connection_stores_nothing() {
    let mut a = started("A");
    let result = a.propose_circuit(scenario_circuit(), Err("connection refused".to_string()));
    assert_eq!(
        result,
        Err(ServiceError::UnableToHandleMessage("connection refused".to_string()))
    );
    assert!(a.get_proposal(&"c1".to_string()).is_none());
}

#[test]
fn origination_overwrites_earlier_proposal() {
    let mut a = started("A");
    let first = scenario_circuit();
    let mut second = scenario_circuit();
    second.protocol_version = 2;
    a.propose_circuit(first, Ok(())).unwrap();
    a.propose_circuit(second.clone(), Ok(())).unwrap();
    assert_eq!(a.get_proposal(&"c1".to_string()).unwrap().circuit_proposal, second);
}

#[test]
fn envelope_framing_is_exact() {
    assert_eq!(encode_envelope(7, &[1, 2]), vec![0, 0, 0, 7, 0, 0, 0, 0, 0, 0, 0, 2, 1, 2]);
    let e = decode_envelope(&[0, 0, 0, 7, 0, 0, 0, 0, 0, 0, 0, 2, 1, 2]).unwrap();
    assert_eq!(e.action, 7);
    assert_eq!(e.payload, vec![1, 2]);
}

#[test]
fn circuit_round_trips_with_all_fields() {
    let mut service = splinter_service("svc", "sabre");
    service.allowed_nodes = vec!["A".to_string(), "Bé".to_string()];
    let mut c = circuit("ü-circuit", vec![splinter_node("A", "tcp://a:8000")], vec![service]);
    c.application_metadata = vec![0, 255, 7];
    c.protocol_version = -3;
    assert_eq!(decode_circuit(&encode_circuit(&c)), Some(c));
}

#[test]
fn admin_service_id_prefixes_node_id() {
    assert_eq!(admin_service_id("other-node"), "admin::other-node");
    let a = AdminService::new("test-node");
    assert_eq!(a.service_id(), "admin::test-node");
    assert_eq!(a.service_type(), "admin");
}
