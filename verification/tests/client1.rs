use krusty_club::channels::SharedSenders;
use krusty_club::client1::{FloodDiscoveryState, MyClient, SentMessageInfo};
use krusty_club::floods::FloodSet;
use krusty_club::packet::{
    FloodRequest, FloodResponse, Fragment, Nack, NackType, NodeId, NodeType, Outgoing, Packet,
    PacketType, SourceRoutingHeader,
};
use std::collections::{HashMap, HashSet};

const SECOND: u64 = 1_000_000_000;

fn setup_client_with_custom_shared_senders(
    client_id: NodeId,
    neighbor_ids: Vec<NodeId>,
    pairs: &[(NodeId, NodeId)],
) -> MyClient {
    let mut shared = SharedSenders::new();
    for &(a, b) in pairs {
        shared.insert(a, b);
    }
    MyClient::new(client_id, neighbor_ids, HashMap::new(), None, FloodSet::new(), Some(shared))
}

fn setup_client(client_id: NodeId, neighbor_ids: Vec<NodeId>) -> MyClient {
    setup_client_with_custom_shared_senders(client_id, neighbor_ids, &[])
}

fn packets_for(out: &[Outgoing], id: NodeId) -> Vec<&Packet> {
    out.iter().filter(|o| o.to == id).map(|o| &o.packet).collect()
}

fn add_pair(client: &mut MyClient, a: NodeId, b: NodeId, weight: usize) {
    client.network.add_edge(a, b, weight);
    client.network.add_edge(b, a, weight);
}

fn sent_info(fragments: Vec<Fragment>, header: &SourceRoutingHeader) -> SentMessageInfo {
    SentMessageInfo {
        fragments,
        original_routing_header: header.clone(),
        received_ack_indices: HashSet::new(),
        route_needs_recalculation: false,
    }
}

#[test]
fn test_start_flood_discovery_generates_unique_id_and_sends_to_neighbors() {
    let client_id = 101;
    let neighbor_ids: Vec<NodeId> = vec![1, 2];
    let mut counter: u64 = 0;
    let mut client = setup_client(client_id, neighbor_ids.clone());
    let initial = counter;
    let mut out: Vec<Outgoing> = Vec::new();

    client.start_flood_discovery(&mut counter, 0, &mut out);

    let expected_flood_id = initial + 1;
    assert_eq!(counter, expected_flood_id, "the counter should be incremented by 1");
    assert!(client.active_flood_discoveries.contains_key(&expected_flood_id));
    let flood_state = client.active_flood_discoveries.get(&expected_flood_id).unwrap();
    assert_eq!(flood_state.initiator_id, client_id);

    assert_eq!(client.packet_send.len(), neighbor_ids.len());
    for &neighbor_id in &neighbor_ids {
        let received = packets_for(&out, neighbor_id);
        assert_eq!(received.len(), 1, "expected only one FloodRequest packet per neighbor");
        assert_eq!(received[0].session_id, expected_flood_id);
        match &received[0].pack_type {
            PacketType::FloodRequest(req) => {
                assert_eq!(req.flood_id, expected_flood_id);
                assert_eq!(req.initiator_id, client_id);
                assert_eq!(req.path_trace, vec![(client_id, NodeType::Client)]);
                assert_eq!(received[0].routing_header.hop_index, 0);
                assert!(received[0].routing_header.hops.is_empty());
            }
            _ => panic!("expected FloodRequest for neighbor {}", neighbor_id),
        }
    }
}

fn flood_packet(flood_id: u64, initiator_id: NodeId, sender: NodeId) -> (FloodRequest, Packet) {
    let request = FloodRequest {
        flood_id,
        initiator_id,
        path_trace: vec![
            (initiator_id, NodeType::Client),
            (10, NodeType::Drone),
            (sender, NodeType::Drone),
        ],
    };
    let packet = Packet {
        pack_type: PacketType::FloodRequest(request.clone()),
        routing_header: SourceRoutingHeader { hop_index: 0, hops: vec![] },
        session_id: flood_id,
    };
    (request, packet)
}

#[test]
fn test_client_does_not_propagate_seen_flood_request() {
    let client_id = 101;
    let incoming_flood_sender_id = 1;
    let other_neighbor_id = 2;
    let test_flood_id = 54321;
    let test_initiator_id = 250;
    let mut client = setup_client(client_id, vec![incoming_flood_sender_id, other_neighbor_id]);
    client.seen_flood_ids.insert(test_flood_id, test_initiator_id);
    assert!(client.packet_send.len() > 1);
    let (request, packet) =
        flood_packet(test_flood_id, test_initiator_id, incoming_flood_sender_id);
    let mut out: Vec<Outgoing> = Vec::new();

    client.process_packet(&packet, &mut out);

    assert!(client.seen_flood_ids.contains(test_flood_id, test_initiator_id));
    let received = packets_for(&out, incoming_flood_sender_id);
    assert_eq!(received.len(), 1, "expected only one FloodResponse packet");
    match &received[0].pack_type {
        PacketType::FloodResponse(response) => {
            assert_eq!(response.flood_id, test_flood_id);
            assert!(response.path_trace.starts_with(&request.path_trace));
            assert_eq!(response.path_trace.last().map(|(id, _)| *id), Some(client_id));
            assert_eq!(received[0].session_id, test_flood_id);
            let mut expected: Vec<NodeId> = response.path_trace.iter().map(|(id, _)| *id).collect();
            expected.reverse();
            assert_eq!(received[0].routing_header.hops, expected);
            assert_eq!(received[0].routing_header.hop_index, 1);
        }
        other => panic!("expected FloodResponse, but received {:?}", other),
    }
    assert!(packets_for(&out, other_neighbor_id).is_empty());
}

#[test]
fn test_client_forwards_new_flood_request_to_other_neighbors() {
    let client_id = 101;
    let incoming_flood_sender_id = 1;
    let other_neighbor_id = 2;
    let test_flood_id = 12345;
    let test_initiator_id = 50;
    let mut client = setup_client(client_id, vec![incoming_flood_sender_id, other_neighbor_id]);
    assert!(!client.seen_flood_ids.contains(test_flood_id, test_initiator_id));
    assert!(client.packet_send.len() > 1);
    let (request, packet) =
        flood_packet(test_flood_id, test_initiator_id, incoming_flood_sender_id);
    let mut out: Vec<Outgoing> = Vec::new();

    client.process_packet(&packet, &mut out);

    assert!(client.seen_flood_ids.contains(test_flood_id, test_initiator_id));
    let forwarded = packets_for(&out, other_neighbor_id);
    assert_eq!(forwarded.len(), 1, "expected only one FloodRequest packet");
    match &forwarded[0].pack_type {
        PacketType::FloodRequest(req) => {
            assert_eq!(req.flood_id, test_flood_id);
            assert_eq!(req.initiator_id, test_initiator_id);
            let mut expected = request.path_trace.clone();
            expected.push((client_id, NodeType::Client));
            assert_eq!(req.path_trace, expected);
            assert_eq!(forwarded[0].routing_header.hop_index, 0);
            assert!(forwarded[0].routing_header.hops.is_empty());
        }
        other => panic!("expected FloodRequest, but received {:?}", other),
    }
    assert!(packets_for(&out, incoming_flood_sender_id).is_empty());
}

#[test]
fn test_create_topology_and_no_duplicate_edges() {
    let client_id = 101;
    let mut client = setup_client(client_id, vec![]);
    assert_eq!(client.network.node_count(), 0);
    assert_eq!(client.network.known_count(), 0);

    let first = FloodResponse {
        flood_id: 1,
        path_trace: vec![
            (client_id, NodeType::Client),
            (1, NodeType::Drone),
            (2, NodeType::Drone),
            (200, NodeType::Server),
        ],
    };
    client.create_topology(&first);

    assert_eq!(client.network.node_count(), 4);
    assert_eq!(client.network.known_count(), 4);
    for id in [client_id, 1, 2, 200] {
        assert!(client.network.knows(id), "node {} should be present", id);
    }
    for (u, v) in [(client_id, 1), (1, 2), (2, 200)] {
        assert!(client.network.linked(u, v), "the edge {} -> {} should exist", u, v);
        assert!(client.network.linked(v, u), "the edge {} -> {} should exist", v, u);
        assert_eq!(client.network.losses(u, v), Some(0));
    }
    assert_eq!(client.network.edge_count(), 6);

    let second = FloodResponse {
        flood_id: 2,
        path_trace: vec![
            (client_id, NodeType::Client),
            (1, NodeType::Drone),
            (3, NodeType::Drone),
            (200, NodeType::Server),
        ],
    };
    client.create_topology(&second);

    assert_eq!(client.network.node_count(), 5);
    assert_eq!(client.network.known_count(), 5);
    assert!(client.network.knows(3));
    assert_eq!(client.network.node_type(3), Some(NodeType::Drone));
    assert_eq!(client.network.edge_count(), 10);
    for (u, v) in [(1, 3), (3, 200)] {
        assert!(client.network.linked(u, v), "the new edge {} -> {} should exist", u, v);
        assert!(client.network.linked(v, u), "the new edge {} -> {} should exist", v, u);
        assert_eq!(client.network.losses(u, v), Some(0));
    }
    assert_eq!(client.network.losses(client_id, 1), Some(0));
}

#[test]
fn test_process_flood_response_unknown_id_still_creates_topology() {
    let client_id = 101;
    let mut client = setup_client(client_id, vec![]);
    let unknown_flood_id = 99999;
    assert!(!client.active_flood_discoveries.contains_key(&unknown_flood_id));
    assert_eq!(client.network.node_count(), 0);
    let response = FloodResponse {
        flood_id: unknown_flood_id,
        path_trace: vec![
            (client_id, NodeType::Client),
            (5, NodeType::Drone),
            (6, NodeType::Drone),
            (201, NodeType::Server),
        ],
    };
    let packet = Packet {
        pack_type: PacketType::FloodResponse(response),
        routing_header: SourceRoutingHeader { hop_index: 0, hops: vec![] },
        session_id: unknown_flood_id,
    };
    let mut out: Vec<Outgoing> = Vec::new();

    client.process_packet(&packet, &mut out);

    assert_eq!(client.network.node_count(), 4);
    assert_eq!(client.network.known_count(), 4);
    assert!(client.network.knows(client_id));
    assert!(client.network.knows(5));
    assert!(client.network.knows(6));
    assert!(client.network.knows(201));
    assert!(client.network.linked(client_id, 5));
    assert!(client.network.linked(5, client_id));
    assert!(client.network.linked(5, 6));
    assert!(client.network.linked(6, 5));
    assert!(client.network.linked(6, 201));
    assert!(client.network.linked(201, 6));
    assert_eq!(client.network.edge_count(), 6);
}

#[test]
fn test_finalize_flood_discovery_after_timeout() {
    let client_id = 101;
    let mut client = setup_client(client_id, vec![]);
    assert_eq!(client.network.node_count(), 0);
    let test_flood_id = 123456789;
    let first = FloodResponse {
        flood_id: test_flood_id,
        path_trace: vec![
            (client_id, NodeType::Client),
            (1, NodeType::Drone),
            (2, NodeType::Drone),
            (200, NodeType::Server),
        ],
    };
    let second = FloodResponse {
        flood_id: test_flood_id,
        path_trace: vec![
            (client_id, NodeType::Client),
            (3, NodeType::Drone),
            (4, NodeType::Drone),
            (200, NodeType::Server),
        ],
    };
    let now = 100 * SECOND;
    client.active_flood_discoveries.insert(
        test_flood_id,
        FloodDiscoveryState {
            initiator_id: client_id,
            start_time: now - 3 * SECOND,
            received_responses: vec![first, second],
        },
    );
    assert!(client.active_flood_discoveries.contains_key(&test_flood_id));
    let mut counter: u64 = 0;
    let mut out: Vec<Outgoing> = Vec::new();

    client.check_flood_discoveries_timeouts(now, &mut counter, &mut out);

    assert!(!client.active_flood_discoveries.contains_key(&test_flood_id));
    for id in [client_id, 1, 2, 200] {
        assert!(client.network.knows(id), "node {} (from first path) should be present", id);
    }
    for id in [client_id, 3, 4, 200] {
        assert!(client.network.knows(id), "node {} (from second path) should be present", id);
    }
    assert_eq!(client.network.node_count(), 6);
    assert_eq!(client.network.known_count(), 6);
    for (u, v) in [(client_id, 1), (1, 2), (2, 200), (client_id, 3), (3, 4), (4, 200)] {
        assert!(client.network.linked(u, v), "edge {} -> {} should exist", u, v);
        assert!(client.network.linked(v, u), "edge {} -> {} should exist", v, u);
        assert_eq!(client.network.losses(u, v), Some(0));
    }
    assert_eq!(client.network.edge_count(), 12);
}

#[test]
fn test_best_path_shortest_with_costs() {
    let client_id = 101;
    let pairs = [
        (client_id, 1),
        (1, client_id),
        (1, 2),
        (2, 1),
        (2, 200),
        (200, 2),
        (client_id, 3),
        (3, client_id),
        (3, 4),
        (4, 3),
        (4, 200),
        (200, 4),
    ];
    let mut client = setup_client_with_custom_shared_senders(client_id, vec![], &pairs);
    for (id, node_type) in [
        (client_id, NodeType::Client),
        (1, NodeType::Drone),
        (2, NodeType::Drone),
        (3, NodeType::Drone),
        (4, NodeType::Drone),
        (200, NodeType::Server),
    ] {
        client.network.add_node(id, node_type);
    }
    add_pair(&mut client, client_id, 1, 0);
    add_pair(&mut client, 1, 2, 0);
    add_pair(&mut client, 2, 200, 0);
    add_pair(&mut client, client_id, 3, 0);
    add_pair(&mut client, 3, 4, 10);
    add_pair(&mut client, 4, 200, 0);

    let path = client.network.best_path(client_id, 200, &client.shared_senders);
    assert!(path.is_some(), "should be found a path from 101 to 200");
    assert_eq!(path.unwrap(), vec![client_id, 1, 2, 200]);

    let path = client.network.best_path(client_id, 200, &client.shared_senders);
    assert!(path.is_some());
    let path = path.unwrap();
    assert_eq!(*path.first().unwrap(), client_id);
    assert_eq!(*path.last().unwrap(), 200);
}

#[test]
fn test_best_path_no_path_exists() {
    let client_id = 101;
    let drone1_id = 1;
    let server_id = 200;
    let mut client = setup_client(client_id, vec![drone1_id]);
    client.network.add_node(client_id, NodeType::Client);
    client.network.add_node(drone1_id, NodeType::Drone);
    client.network.add_node(server_id, NodeType::Server);
    add_pair(&mut client, client_id, drone1_id, 0);

    assert!(client.network.best_path(client_id, server_id, &client.shared_senders).is_none());
    assert!(client.network.best_path(250, 200, &client.shared_senders).is_none());
    assert!(client.network.best_path(client_id, 251, &client.shared_senders).is_none());
}

#[test]
fn test_best_path_source_node_not_in_graph() {
    let mut client = setup_client(101, vec![]);
    let target_id = 200;
    client.network.add_node(target_id, NodeType::Server);
    assert!(client.network.best_path(235, target_id, &client.shared_senders).is_none());
}

#[test]
fn test_best_path_destination_node_not_in_graph() {
    let client_id = 101;
    let mut client = setup_client(client_id, vec![]);
    client.network.add_node(client_id, NodeType::Client);
    assert!(client.network.best_path(client_id, 244, &client.shared_senders).is_none());
}

#[test]
fn test_flood_discovery_on_best_path_failure() {
    let client_id = 101;
    let server_id = 200;
    let mut counter: u64 = 0;
    let mut client = setup_client(client_id, vec![]);
    assert_eq!(client.network.node_count(), 0);
    assert!(client.active_flood_discoveries.is_empty());
    let mut out: Vec<Outgoing> = Vec::new();

    let login = format!("[Login]::{}", server_id);
    assert!(client.can_process(&login));
    client.process_gui_command(&login, 0, &mut counter, &mut out);
    assert_eq!(client.connected_server_id, Some(server_id));
    let message = format!("[MessageTo]::{}::Hello World", client_id);
    client.process_gui_command(&message, 0, &mut counter, &mut out);

    assert!(!client.active_flood_discoveries.is_empty());
    let flood_ids: Vec<u64> = client.active_flood_discoveries.keys().cloned().collect();
    assert_eq!(flood_ids.len(), 1, "there should be exactly one flood active discovery");
    let flood_state = client.active_flood_discoveries.get(&flood_ids[0]).unwrap();
    assert_eq!(flood_state.initiator_id, client_id);
    assert_eq!(flood_ids[0], 1, "flood_id should be 1 after the first flood discovery");
}

#[test]
fn test_process_nack_error_in_routing_node_crash() {
    let client_id = 101;
    let drone1_id = 1;
    let drone2_id = 2;
    let server_id = 200;
    let mut client = setup_client(client_id, vec![drone1_id]);
    client.network.add_node(client_id, NodeType::Client);
    client.network.add_node(drone1_id, NodeType::Drone);
    client.network.add_node(drone2_id, NodeType::Drone);
    client.network.add_node(server_id, NodeType::Server);
    add_pair(&mut client, client_id, drone1_id, 0);
    add_pair(&mut client, drone1_id, drone2_id, 0);
    add_pair(&mut client, drone2_id, server_id, 0);

    let session_id = 456;
    let header = SourceRoutingHeader {
        hops: vec![client_id, drone1_id, drone2_id, server_id],
        hop_index: 2,
    };
    let nack = Nack { fragment_index: 0, nack_type: NackType::ErrorInRouting(drone2_id) };
    let packet = Packet {
        pack_type: PacketType::Nack(nack),
        routing_header: header.clone(),
        session_id,
    };
    client.sent_messages.insert(session_id, sent_info(vec![], &header));
    client.route_cache.insert(server_id, vec![client_id, drone1_id, drone2_id, server_id]);

    assert!(client.route_cache.contains_key(&server_id));
    assert!(client.network.knows(drone2_id));
    assert_eq!(client.network.node_count(), 4);
    assert!(client.packet_send.contains(&drone1_id));
    assert!(!client.packet_send.contains(&drone2_id));
    let mut out: Vec<Outgoing> = Vec::new();

    client.process_nack(&nack, &packet, &mut out);

    assert!(!client.network.knows(drone2_id));
    assert_eq!(client.network.node_count(), 3);
    assert!(client.sent_messages.get(&session_id).unwrap().route_needs_recalculation);
    assert!(!client.route_cache.contains_key(&server_id));
    assert!(client.packet_send.contains(&drone1_id));
}

#[test]
fn test_process_nack_error_in_routing_link_failure() {
    let client_id = 101;
    let drone1_id = 1;
    let drone2_id = 2;
    let drone3_id = 3;
    let server_id = 200;
    let pairs = [
        (drone1_id, drone2_id),
        (drone2_id, drone1_id),
        (drone2_id, drone3_id),
        (drone3_id, drone2_id),
        (drone3_id, server_id),
        (server_id, drone3_id),
    ];
    let mut client = setup_client_with_custom_shared_senders(client_id, vec![drone1_id], &pairs);
    client.network.add_node(client_id, NodeType::Client);
    client.network.add_node(drone1_id, NodeType::Drone);
    client.network.add_node(drone2_id, NodeType::Drone);
    client.network.add_node(drone3_id, NodeType::Drone);
    client.network.add_node(server_id, NodeType::Server);
    add_pair(&mut client, client_id, drone1_id, 0);
    add_pair(&mut client, drone1_id, drone2_id, 0);
    add_pair(&mut client, drone2_id, drone3_id, 0);
    add_pair(&mut client, drone3_id, server_id, 0);

    let session_id = 789;
    let header = SourceRoutingHeader {
        hops: vec![client_id, drone1_id, drone2_id, drone3_id, server_id],
        hop_index: 2,
    };
    let nack = Nack { fragment_index: 0, nack_type: NackType::ErrorInRouting(drone2_id) };
    let packet = Packet {
        pack_type: PacketType::Nack(nack),
        routing_header: header.clone(),
        session_id,
    };
    client.sent_messages.insert(session_id, sent_info(vec![], &header));
    client
        .route_cache
        .insert(server_id, vec![client_id, drone1_id, drone2_id, drone3_id, server_id]);

    assert!(client.route_cache.contains_key(&server_id));
    assert!(client.network.knows(drone2_id));
    assert_eq!(client.network.node_count(), 5);
    assert!(client.network.linked(drone1_id, drone2_id));
    assert!(client.network.linked(drone2_id, drone1_id));
    assert!(client.network.linked(drone2_id, drone3_id));
    assert!(client.network.linked(drone3_id, drone2_id));
    assert!(client.packet_send.contains(&drone1_id));
    assert!(!client.packet_send.contains(&drone2_id));
    let mut out: Vec<Outgoing> = Vec::new();

    client.process_nack(&nack, &packet, &mut out);

    assert!(client.network.knows(drone2_id));
    assert_eq!(client.network.node_count(), 5);
    assert!(!client.network.linked(drone1_id, drone2_id));
    assert!(!client.network.linked(drone2_id, drone1_id));
    assert!(client.network.linked(drone2_id, drone3_id));
    assert!(client.network.linked(drone3_id, drone2_id));
    assert!(client.sent_messages.get(&session_id).unwrap().route_needs_recalculation);
    assert!(!client.route_cache.contains_key(&server_id));
    assert!(client.packet_send.contains(&drone1_id));
}

#[test]
fn test_process_nack_destination_is_drone() {
    let client_id = 101;
    let drone1_id = 1;
    let drone_destination_id = 50;
    let mut client = setup_client(client_id, vec![drone1_id]);
    client.network.add_node(client_id, NodeType::Client);
    client.network.add_node(drone1_id, NodeType::Drone);
    client.network.add_node(drone_destination_id, NodeType::Drone);
    add_pair(&mut client, client_id, drone1_id, 0);
    add_pair(&mut client, drone1_id, drone_destination_id, 0);
    let session_id = 789;
    let header = SourceRoutingHeader {
        hops: vec![client_id, drone1_id, drone_destination_id],
        hop_index: 2,
    };
    let nack = Nack { fragment_index: 0, nack_type: NackType::DestinationIsDrone };
    let packet = Packet {
        pack_type: PacketType::Nack(nack),
        routing_header: header.clone(),
        session_id,
    };
    client.sent_messages.insert(session_id, sent_info(vec![], &header));
    client
        .route_cache
        .insert(drone_destination_id, vec![client_id, drone1_id, drone_destination_id]);
    assert!(client.route_cache.contains_key(&drone_destination_id));
    let mut out: Vec<Outgoing> = Vec::new();

    client.process_nack(&nack, &packet, &mut out);

    assert!(client.sent_messages.get(&session_id).unwrap().route_needs_recalculation);
    assert!(!client.route_cache.contains_key(&drone_destination_id));
    assert!(client.network.knows(drone_destination_id));
}

#[test]
fn test_process_nack_unexpected_recipient() {
    let client_id = 101;
    let drone1_id = 1;
    let drone_expected = 2;
    let drone_actual = 3;
    let server_id = 200;
    let mut client = setup_client(client_id, vec![drone1_id, drone_actual]);
    client.network.add_node(client_id, NodeType::Client);
    client.network.add_node(drone1_id, NodeType::Drone);
    client.network.add_node(drone_expected, NodeType::Drone);
    client.network.add_node(drone_actual, NodeType::Drone);
    client.network.add_node(server_id, NodeType::Server);
    add_pair(&mut client, client_id, drone1_id, 0);
    add_pair(&mut client, drone1_id, drone_actual, 0);
    add_pair(&mut client, drone_expected, server_id, 0);
    let session_id = 910;
    let nack = Nack { fragment_index: 0, nack_type: NackType::UnexpectedRecipient(drone_actual) };
    let packet = Packet {
        pack_type: PacketType::Nack(nack),
        routing_header: SourceRoutingHeader {
            hops: vec![drone_actual, drone1_id, client_id],
            hop_index: 1,
        },
        session_id,
    };
    let original = SourceRoutingHeader {
        hops: vec![client_id, drone1_id, drone_expected, server_id],
        hop_index: 2,
    };
    client.sent_messages.insert(session_id, sent_info(vec![], &original));
    client.route_cache.insert(server_id, vec![client_id, drone1_id, drone_expected, server_id]);
    assert!(client.route_cache.contains_key(&server_id));
    assert_eq!(client.network.losses(drone1_id, drone_actual), Some(0));
    assert_eq!(client.network.losses(drone_actual, drone1_id), Some(0));
    let mut out: Vec<Outgoing> = Vec::new();

    client.process_nack(&nack, &packet, &mut out);

    assert_eq!(client.network.losses(drone1_id, drone_actual), Some(1));
    assert_eq!(client.network.losses(drone_actual, drone1_id), Some(1));
    assert!(client.sent_messages.get(&session_id).unwrap().route_needs_recalculation);
    assert!(!client.route_cache.contains_key(&server_id));
}

#[test]
fn test_process_nack_dropped() {
    let client_id = 101;
    let drone1_id = 1;
    let dropper = 2;
    let server_id = 200;
    let mut client = setup_client(client_id, vec![drone1_id]);
    client.network.add_node(client_id, NodeType::Client);
    client.network.add_node(drone1_id, NodeType::Drone);
    client.network.add_node(dropper, NodeType::Drone);
    client.network.add_node(server_id, NodeType::Server);
    add_pair(&mut client, client_id, drone1_id, 0);
    add_pair(&mut client, drone1_id, dropper, 0);
    add_pair(&mut client, dropper, server_id, 0);
    let session_id = 789;
    let nack_fragment_index = 5;
    let nack = Nack { fragment_index: nack_fragment_index, nack_type: NackType::Dropped };
    let hops = vec![client_id, drone1_id, dropper, server_id];
    let resend = SourceRoutingHeader { hops: hops.clone(), hop_index: 1 };
    let from_dropper = SourceRoutingHeader { hops, hop_index: 2 };
    let packet = Packet {
        pack_type: PacketType::Nack(nack),
        routing_header: from_dropper.clone(),
        session_id,
    };
    let fragment = Fragment {
        fragment_index: nack_fragment_index,
        total_n_fragments: 10,
        length: 50,
        data: [0xAA; 128],
    };
    client.sent_messages.insert(session_id, sent_info(vec![fragment], &resend));
    let from = from_dropper.hops[from_dropper.hop_index - 1];
    let at = from_dropper.hops[from_dropper.hop_index];
    assert_eq!(client.network.losses(from, at), Some(0));
    assert_eq!(client.network.losses(at, from), Some(0));
    let mut out: Vec<Outgoing> = Vec::new();

    client.process_nack(&nack, &packet, &mut out);

    assert_eq!(client.network.losses(from, at), Some(1));
    assert_eq!(client.network.losses(at, from), Some(1));
    let target = resend.hops[resend.hop_index];
    let received = packets_for(&out, target);
    assert!(!received.is_empty(), "client should have retransmitted the dropped fragment");
    match &received[0].pack_type {
        PacketType::MsgFragment(frag) => {
            assert_eq!(frag.fragment_index, nack_fragment_index);
            assert_eq!(received[0].session_id, session_id);
            assert_eq!(received[0].routing_header.hops, resend.hops);
            assert_eq!(received[0].routing_header.hop_index, resend.hop_index);
        }
        other => panic!("expected MsgFragment, but received {:?}", other),
    }
}

#[test]
fn test_increment_drop_increases_weight() {
    let client_id = 101;
    let drone1_id = 1;
    let drone2_id = 2;
    let mut client = setup_client(client_id, vec![drone1_id, drone2_id]);
    client.network.add_node(client_id, NodeType::Client);
    client.network.add_node(drone1_id, NodeType::Drone);
    client.network.add_node(drone2_id, NodeType::Drone);
    add_pair(&mut client, drone1_id, drone2_id, 0);
    assert_eq!(client.network.losses(drone1_id, drone2_id), Some(0));
    assert_eq!(client.network.losses(drone2_id, drone1_id), Some(0));

    client.network.increment_drop(drone1_id, drone2_id);
    client.network.increment_drop(drone2_id, drone1_id);

    assert_eq!(client.network.losses(drone1_id, drone2_id), Some(1));
    assert_eq!(client.network.losses(drone2_id, drone1_id), Some(1));
}

#[test]
fn test_remove_node_from_graph_removes_node_and_edges() {
    let client_id = 101;
    let gone = 1;
    let near1 = 2;
    let near2 = 3;
    let server_id = 200;
    let mut client = setup_client(client_id, vec![]);
    client.network.add_node(client_id, NodeType::Client);
    client.network.add_node(gone, NodeType::Drone);
    client.network.add_node(near1, NodeType::Drone);
    client.network.add_node(near2, NodeType::Drone);
    client.network.add_node(server_id, NodeType::Server);
    add_pair(&mut client, client_id, gone, 0);
    add_pair(&mut client, gone, near1, 0);
    add_pair(&mut client, gone, near2, 0);
    add_pair(&mut client, gone, server_id, 0);
    add_pair(&mut client, client_id, near1, 0);
    let initial_node_count = client.network.node_count();
    let initial_edge_count = client.network.edge_count();
    let expected_edges_removed = 8;
    assert!(client.network.knows(gone));
    assert_eq!(client.network.node_type(gone), Some(NodeType::Drone));
    assert!(client.network.linked(client_id, gone));
    assert!(client.network.linked(gone, near1));

    client.network.remove_node(gone);

    assert!(!client.network.knows(gone));
    assert_eq!(client.network.node_type(gone), None);
    assert_eq!(client.network.node_count(), initial_node_count - 1);
    assert_eq!(client.network.edge_count(), initial_edge_count - expected_edges_removed);
    for other in [client_id, near1, near2, server_id] {
        assert!(!client.network.linked(other, gone), "edge {} -> {} shouldn't exist", other, gone);
        assert!(!client.network.linked(gone, other), "edge {} -> {} shouldn't exist", gone, other);
    }
    assert!(client.network.linked(client_id, near1));
    assert!(client.network.linked(near1, client_id));
}

fn single_text(packet: &Packet) -> String {
    match &packet.pack_type {
        PacketType::MsgFragment(f) => {
            String::from_utf8_lossy(&f.data[..f.length as usize]).to_string()
        }
        other => panic!("expected MsgFragment, but received {:?}", other),
    }
}

#[test]
fn test_login_logout_updates_state_and_sends_messages() {
    let client_id = 101;
    let server_id = 200;
    let drone1_id = 1;
    let drone2_id = 2;
    let mut counter: u64 = 0;
    let pairs = [
        (client_id, drone1_id),
        (drone1_id, client_id),
        (drone1_id, drone2_id),
        (drone2_id, drone1_id),
        (drone2_id, server_id),
        (server_id, drone2_id),
    ];
    let mut client = setup_client_with_custom_shared_senders(client_id, vec![drone1_id], &pairs);
    client.network.add_node(client_id, NodeType::Client);
    client.network.add_node(drone1_id, NodeType::Drone);
    client.network.add_node(drone2_id, NodeType::Drone);
    client.network.add_node(server_id, NodeType::Server);
    add_pair(&mut client, client_id, drone1_id, 0);
    add_pair(&mut client, drone1_id, drone2_id, 0);
    add_pair(&mut client, drone2_id, server_id, 0);
    assert_eq!(client.connected_server_id, None);
    let mut out: Vec<Outgoing> = Vec::new();

    let login = format!("[Login]::{}", server_id);
    let initial = counter;
    client.process_gui_command(&login, 0, &mut counter, &mut out);

    assert_eq!(client.connected_server_id, Some(server_id));
    assert_eq!((login.as_bytes().len() + 128 - 1) / 128, 1);
    let received = packets_for(&out, drone1_id);
    assert!(!received.is_empty(), "should receive a fragment for the Login command");
    assert_eq!(received[0].session_id, initial + 1);
    assert_eq!(received[0].routing_header.hops, vec![client_id, drone1_id, drone2_id, server_id]);
    assert_eq!(received[0].routing_header.hop_index, 1);
    assert_eq!(single_text(received[0]), login);
    assert_eq!(client.connected_server_id, Some(server_id));

    out.clear();
    let before_logout = counter;
    client.process_gui_command("[Logout]", 0, &mut counter, &mut out);

    assert_eq!(client.connected_server_id, None);
    assert_eq!(("[Logout]".as_bytes().len() + 128 - 1) / 128, 1);
    let received = packets_for(&out, drone1_id);
    assert!(!received.is_empty(), "should receive a fragment packet for the Logout command");
    assert_eq!(received[0].session_id, before_logout + 1);
    assert_eq!(received[0].routing_header.hops, vec![client_id, drone1_id, drone2_id, server_id]);
    assert_eq!(received[0].routing_header.hop_index, 1);
    assert_eq!(single_text(received[0]), "[Logout]");

    assert_eq!(client.connected_server_id, None);
    out.clear();
    let before_ignored = counter;
    client.process_gui_command("[Logout]", 0, &mut counter, &mut out);
    assert_eq!(client.connected_server_id, None);
    assert!(packets_for(&out, drone1_id).is_empty());
    assert_eq!(counter, before_ignored);
}

#[test]
fn test_send_ack_sends_correct_packet_to_next_hop() {
    let client_id = 101;
    let drone1_id = 1;
    let drone2_id = 2;
    let server_id = 200;
    let client = setup_client(client_id, vec![drone1_id]);
    let session_id = 12345;
    let fragment_index = 0;
    let fragment =
        Fragment { fragment_index, total_n_fragments: 1, length: 10, data: [0u8; 128] };
    let header = SourceRoutingHeader {
        hops: vec![server_id, drone2_id, drone1_id, client_id],
        hop_index: 3,
    };
    let packet = Packet {
        pack_type: PacketType::MsgFragment(fragment),
        routing_header: header.clone(),
        session_id,
    };
    let mut out: Vec<Outgoing> = Vec::new();

    client.send_ack(&packet, &fragment, &mut out);

    let sent = packets_for(&out, drone1_id);
    assert_eq!(sent.len(), 1, "only one ACK packet was expected for the neighbor");
    match &sent[0].pack_type {
        PacketType::Ack(ack) => {
            assert_eq!(ack.fragment_index, fragment_index);
            assert_eq!(sent[0].session_id, session_id);
            let mut expected = header.hops.clone();
            expected.reverse();
            assert_eq!(sent[0].routing_header.hops, expected);
            assert_eq!(sent[0].routing_header.hop_index, 1);
        }
        other => panic!("an ACK packet was expected, but received {:?}", other),
    }
}
