use krusty_club::adjacency::Adjacency;
use krusty_club::channels::SharedSenders;
use krusty_club::config::{ClientConfig, DroneConfig, ParsedConfig, ServerConfig};
use krusty_club::config_check::{
    client_make, share_out, ClientMake, ConfigError, NetworkConfig,
};
use krusty_club::controller::SimulationControllerImpl;
use krusty_club::drone::DroneEvent;
use krusty_club::gui_queue::GuiQueue;
use krusty_club::packet::{
    Ack, NodeId, NodeType, Packet, PacketType, SourceRoutingHeader,
};
use krusty_club::sc_backend::{Command, ControlError, Order, SimulationController};
use krusty_club::sc_changes::current_hop;
use krusty_club::topology::Topology;

fn drone(id: NodeId, links: &[NodeId]) -> DroneConfig {
    DroneConfig { id, connected_node_ids: links.to_vec(), pdr: 0 }
}

fn client(id: NodeId, links: &[NodeId]) -> ClientConfig {
    ClientConfig { id, connected_drone_ids: links.to_vec() }
}

fn server(id: NodeId, links: &[NodeId]) -> ServerConfig {
    ServerConfig { id, connected_drone_ids: links.to_vec() }
}

/// Drones 11, 12 and 13 in a ring, client 1 at 11 and 12, server 40 at all drones.
fn ring() -> ParsedConfig {
    ParsedConfig {
        drone: vec![
            drone(11, &[12, 13, 1, 40]),
            drone(12, &[11, 13, 1, 40]),
            drone(13, &[11, 12, 40]),
        ],
        client: vec![client(1, &[11, 12])],
        server: vec![server(40, &[11, 12, 13])],
    }
}

#[test]
fn a_valid_network_is_accepted() {
    assert_eq!(ring().validate_config(), Ok(()));
    assert_eq!(ParsedConfig::new().validate_config(), Ok(()));
}

fn fault(c: &ParsedConfig) -> ConfigError {
    c.validate_config().unwrap_err()
}

#[test]
fn faults_of_networks_are_found() {
    let mut c = ring();
    c.client[0].id = 11;
    assert_eq!(fault(&c), ConfigError::DuplicateId);
    assert_eq!(fault(&c).message(), "Duplicate node ID found");

    let mut c = ring();
    c.client[0].connected_drone_ids = vec![11, 12, 13];
    assert_eq!(fault(&c).message(), "Client cannot connect to more than 2 drones");
    c.client[0].connected_drone_ids = vec![];
    assert_eq!(fault(&c).message(), "Client must connect to at least 1 drone");
    c.client[0].connected_drone_ids = vec![11, 11];
    assert_eq!(fault(&c).message(), "Duplicate connection in client.connected_drone_ids");
    c.client[0].connected_drone_ids = vec![1];
    assert_eq!(fault(&c).message(), "Client cannot connect to itself");
    c.client[0].connected_drone_ids = vec![13];
    assert_eq!(
        fault(&c).message(),
        "Connection between client 1 and drone 13 is not bidirectional"
    );
    c.client[0].connected_drone_ids = vec![99];
    assert_eq!(fault(&c).message(), "Client 1 connects to non-existent drone 99");

    let mut c = ring();
    c.server[0].connected_drone_ids = vec![11];
    assert_eq!(fault(&c).message(), "Server must connect to at least 2 drones");
    c.server[0].connected_drone_ids = vec![11, 11];
    assert_eq!(fault(&c).message(), "Duplicate connection in server.connected_drone_ids");
    c.server[0].connected_drone_ids = vec![11, 40];
    assert_eq!(fault(&c).message(), "Server cannot connect to itself");
    c.server[0].connected_drone_ids = vec![11, 99];
    assert_eq!(fault(&c).message(), "Server 40 connects to non-existent drone 99");
    c.server[0].connected_drone_ids = vec![11, 12];
    c.drone[1].connected_node_ids = vec![11, 13, 1];
    assert_eq!(
        fault(&c).message(),
        "Connection between server 40 and drone 12 is not bidirectional"
    );

    let mut c = ring();
    c.drone.push(drone(77, &[]));
    assert_eq!(fault(&c).message(), "Graph is not connected");

    let split = ParsedConfig {
        drone: vec![drone(11, &[40, 41]), drone(12, &[40, 41])],
        client: vec![],
        server: vec![server(40, &[11, 12]), server(41, &[11, 12])],
    };
    assert_eq!(
        fault(&split).message(),
        "Drone-only graph is not connected (clients and servers must be at edges)"
    );
    assert!(!split.check_edges_property(11));
    assert!(ring().check_edges_property(13));
}

#[test]
fn files_are_checked() {
    let ok = NetworkConfig {
        drones: vec![drone(11, &[])],
        clients: vec![client(1, &[11])],
        servers: vec![server(40, &[11, 12])],
    };
    assert_eq!(ok.validate(), Ok(()));
    let twice = NetworkConfig {
        drones: vec![drone(1, &[])],
        clients: vec![client(1, &[11])],
        servers: vec![],
    };
    assert_eq!(twice.validate(), Err("Duplicate node IDs found".to_string()));
    let many = NetworkConfig {
        drones: vec![],
        clients: vec![client(1, &[]), client(2, &[11, 12, 13])],
        servers: vec![],
    };
    assert_eq!(
        many.validate(),
        Err("Client 2 is connected to more than 2 drones".to_string())
    );
    let few = NetworkConfig { drones: vec![], clients: vec![], servers: vec![server(9, &[1])] };
    assert_eq!(few.validate(), Err("Server 9 must connect to at least 2 drones".to_string()));
}

#[test]
fn configurations_change() {
    let mut c = ring();
    c.add_drone(14);
    c.set_drone_pdr(14, 7);
    c.set_drone_connections(14, &vec![11]);
    assert_eq!(c.drone[3], DroneConfig { id: 14, connected_node_ids: vec![11], pdr: 7 });
    c.append_drone_connection(11, 14);
    c.append_drone_connection(11, 14);
    assert_eq!(c.drone[0].connected_node_ids, vec![12, 13, 1, 40, 14]);
    c.append_client_connection(1, 13);
    assert_eq!(c.client[0].connected_drone_ids, vec![11, 12, 13]);
    c.append_server_connection(40, 14);
    assert_eq!(c.server[0].connected_drone_ids, vec![11, 12, 13, 14]);
    c.remove_drone_connections(12);
    assert_eq!(c.drone[0].connected_node_ids, vec![13, 1, 40, 14]);
    assert_eq!(c.client[0].connected_drone_ids, vec![11, 13]);
    c.remove_client_connections(1);
    assert!(c.client[0].connected_drone_ids.is_empty());
    assert_eq!(c.drone[0].connected_node_ids, vec![13, 40, 14]);
    c.remove_server_connections(40);
    assert!(c.server[0].connected_drone_ids.is_empty());
    assert_eq!(c.drone[0].connected_node_ids, vec![13, 14]);
    assert_eq!(c.node_type(13), Some(NodeType::Drone));
    assert_eq!(c.node_type(40), Some(NodeType::Server));
    assert_eq!(c.node_type(99), None);
}

#[test]
fn channels_follow_the_connections() {
    let mut c = ring();
    c.drone[2].connected_node_ids.push(99);
    c.drone[2].connected_node_ids.push(11);
    assert_eq!(c.channels_from(13), vec![11, 12, 40]);
    assert!(c.channels_from(99).is_empty());
    let shared = c.setup_channels();
    assert!(shared.contains(1, 11));
    assert!(shared.contains(13, 40));
    assert!(!shared.contains(13, 99));
    assert!(!shared.contains(1, 13));
}

#[test]
fn drones_are_shared_out_evenly() {
    assert_eq!(share_out(7, 3), vec![0, 0, 0, 1, 1, 2, 2]);
    assert_eq!(share_out(2, 5), vec![0, 1]);
    assert!(share_out(0, 4).is_empty());
    assert_eq!(client_make(2, 0, 4), ClientMake::Second);
    assert_eq!(client_make(2, 0, 5), ClientMake::First);
    assert_eq!(client_make(3, 0, 5), ClientMake::Second);
    assert_eq!(client_make(3, 1, 4), ClientMake::First);
}

fn ten(links: impl Fn(u8) -> Vec<u8>) -> ParsedConfig {
    ParsedConfig {
        drone: (1..=10).map(|i| drone(i, &links(i))).collect(),
        client: vec![],
        server: vec![],
    }
}

#[test]
fn shapes_are_detected() {
    let star = ten(|i| vec![(i + 2) % 10 + 1, (i + 6) % 10 + 1]);
    assert_eq!(star.detect_topology(), Some("Star".to_string()));

    let chain = ten(|i| {
        let mut v = Vec::new();
        if i != 1 && i != 6 {
            v.push(i - 1);
        }
        if i != 5 && i != 10 {
            v.push(i + 1);
        }
        v.push(if i <= 5 { i + 5 } else { i - 5 });
        v
    });
    assert_eq!(chain.detect_topology(), Some("Double Chain".to_string()));

    let level = |i: u8| if i < 2 { 1 } else if i < 4 { 2 } else if i < 7 { 3 } else { 4 };
    let tree = ten(|i| {
        (1..=10)
            .filter(|&j| {
                level(i) + 1 == level(j) || level(j) + 1 == level(i)
            })
            .collect()
    });
    assert_eq!(tree.detect_topology(), Some("Tree".to_string()));

    let crowd = ten(|i| (1..=10).filter(|&j| j != i).collect());
    assert_eq!(crowd.detect_topology(), Some("Sub-Net".to_string()));

    let wings: Vec<Vec<u8>> = vec![
        vec![2, 5],
        vec![1, 3, 6],
        vec![2, 4, 7],
        vec![3, 8],
        vec![1, 9, 6],
        vec![2, 10],
        vec![3, 9],
        vec![4, 10, 7],
        vec![5, 7, 10],
        vec![6, 8, 9],
    ];
    let butterfly = ten(|i| wings[i as usize - 1].clone());
    assert_eq!(butterfly.detect_topology(), Some("Butterfly".to_string()));

    assert_eq!(ten(|_| vec![]).detect_topology(), None);
    assert_eq!(ring().detect_topology(), None);
}

#[test]
fn shapes_have_names() {
    assert_eq!(Topology::from_str("star"), Some(Topology::Star));
    assert_eq!(Topology::from_str("double_chain"), Some(Topology::DoubleChain));
    assert_eq!(Topology::from_str("butterfly"), Some(Topology::Butterfly));
    assert_eq!(Topology::from_str("tree"), Some(Topology::Tree));
    assert_eq!(Topology::from_str("sub-net"), Some(Topology::SubNet));
    assert_eq!(Topology::from_str("custom"), Some(Topology::Custom));
    assert_eq!(Topology::from_str("Star"), None);
}

fn controller(config: ParsedConfig) -> SimulationController {
    let shared = config.setup_channels();
    let mut packets = Adjacency::new();
    let mut ids: Vec<NodeId> = config.drone.iter().map(|d| d.id).collect();
    let commands = ids.clone();
    ids.extend(config.client.iter().map(|c| c.id));
    ids.extend(config.server.iter().map(|s| s.id));
    for id in ids {
        packets.add_key(id);
        for to in config.channels_from(id) {
            packets.add_link(id, to);
        }
    }
    let hosts = vec![1, 40];
    SimulationController::new(config, commands, packets, shared, hosts)
}

#[test]
fn crashes_are_carried_out() {
    let mut c = controller(ring());
    let mut queue = GuiQueue::new_gui_input_queue();
    let orders = c.crash_drone(13).unwrap();
    assert_eq!(
        orders,
        vec![
            Order { to: 11, command: Command::RemoveSender(13) },
            Order { to: 12, command: Command::RemoveSender(13) },
            Order { to: 13, command: Command::Crash },
        ]
    );
    c.drone_crashed(13, &mut queue);
    assert!(!c.network_graph.contains_key(13));
    assert!(!c.network_graph.linked(11, 13));
    assert_eq!(c.config.server[0].connected_drone_ids, vec![11, 12]);
    assert!(!c.shared_senders.contains(40, 13));
    assert!(!c.get_packet_sender(13, 11));
    assert_eq!(queue.take_message(1).unwrap(), "[FloodRequired]::Crash::13");
    assert_eq!(queue.take_message(40).unwrap(), "[FloodRequired]::Crash::13");
    assert!(queue.take_message(40).is_none());

    let again = c.crash_drone(13).unwrap_err();
    assert_eq!(again.message(), "Drone 13 is already inactive");
    assert_eq!(c.crash_drone(99).unwrap_err().message(), "Drone 99 not found");
    assert_eq!(
        c.crash_drone(12).unwrap_err().message(),
        "Crashing this drone would violate network constraints"
    );
    assert!(!c.is_crash_allowed(12));
    assert_eq!(c.get_node_state(13).unwrap().active, false);
    assert_eq!(c.get_node_state(1).unwrap().pdr, 1.0f32.to_bits());
}

#[test]
fn links_are_removed_and_added() {
    let mut c = controller(ring());
    let mut queue = GuiQueue::new_gui_input_queue();
    assert_eq!(
        c.remove_link(99, 11).unwrap_err().message(),
        "Node 99 not found in network graph"
    );
    assert_eq!(
        c.remove_link(1, 13).unwrap_err().message(),
        "No link exists between nodes 1 and 13"
    );
    let orders = c.remove_link(13, 40).unwrap();
    assert_eq!(orders, vec![Order { to: 13, command: Command::RemoveSender(40) }]);
    c.link_removed(13, 40, &mut queue);
    assert!(!c.network_graph.linked(40, 13));
    assert_eq!(queue.take_message(1).unwrap(), "[FloodRequired]::RemoveSender::13::40");
    assert_eq!(
        c.remove_link(40, 11).unwrap_err().message(),
        "Removing this link would violate network constraints"
    );

    let orders = c.add_link(13, 40).unwrap();
    assert_eq!(orders, vec![Order { to: 13, command: Command::AddSender(40, 13, 40) }]);
    c.link_added(13, 40, &mut queue);
    assert!(c.network_graph.linked(40, 13) && c.network_graph.linked(13, 40));
    assert_eq!(c.config.server[0].connected_drone_ids, vec![11, 12, 13]);
    assert!(c.shared_senders.contains(40, 13));
    assert_eq!(queue.take_message(1).unwrap(), "[FloodRequired]::AddSender::13::40");
    assert!(c.remove_link(13, 40).is_ok());
    c.link_removed(13, 40, &mut queue);
    assert_eq!(c.config.server[0].connected_drone_ids, vec![11, 12]);
    assert!(!c.network_graph.linked(40, 13) && !c.network_graph.linked(13, 40));
    assert_eq!(c.add_link(1, 13).unwrap_err(), ControlError::ClientFull);
    assert_eq!(c.add_link(13, 99).unwrap_err().message(), "No packet sender for node 99");
    c.command_senders.clear();
    assert_eq!(c.add_link(13, 12).unwrap_err().message(), "No command sender for node 13");
}

#[test]
fn drones_are_spawned() {
    let mut c = controller(ring());
    let mut queue = GuiQueue::new_gui_input_queue();
    assert_eq!(
        c.spawn_drone(11, 0, &vec![12]).unwrap_err().message(),
        "Drone ID already exists"
    );
    assert_eq!(
        c.spawn_drone(14, 0, &vec![12, 98]).unwrap_err().message(),
        "Connection node 98 does not exist"
    );
    assert_eq!(
        c.spawn_drone(14, 0, &vec![12, 1]).unwrap_err().message(),
        "Client 1 already has 2 drone connections. Cannot connect new drone 14."
    );
    let orders = c.spawn_drone(14, 3, &vec![12, 40]).unwrap();
    assert_eq!(
        orders,
        vec![
            Order { to: 12, command: Command::AddSender(14, 14, 12) },
            Order { to: 14, command: Command::AddSender(12, 12, 14) },
            Order { to: 14, command: Command::AddSender(40, 40, 14) },
        ]
    );
    c.drone_spawned(14, &vec![12, 40], &mut queue);
    assert_eq!(queue.take_message(40).unwrap(), "[FloodRequired]::SpawnDrone::14::[12, 40]");
    assert!(c.network_graph.linked(14, 40) && c.network_graph.linked(40, 14));
    assert!(c.shared_senders.contains(40, 14));
    assert_eq!(c.get_node_state(14).unwrap().pdr, 3);
    assert_eq!(c.config.server[0].connected_drone_ids, vec![11, 12, 13, 14]);
    assert!(c.registered_nodes().contains(&14));
    assert!(c.set_packet_drop_rate(14, &mut queue).is_ok());
    assert_eq!(queue.take_message(1).unwrap(), "[FloodRequired]::SpawnDrone::14::[12, 40]");
    assert_eq!(queue.take_message(1).unwrap(), "[FloodRequired]::newpdr");
    assert_eq!(
        c.set_packet_drop_rate(99, &mut queue).unwrap_err().message(),
        "Drone not found"
    );
}

#[test]
fn reach_is_through_drones() {
    let c = controller(ring());
    assert!(c.can_reach(&c.network_graph, 1, 40, None));
    assert!(c.can_reach(&c.network_graph, 40, 1, Some(13)));
    let mut g = c.network_graph.duplicate();
    g.remove_key(11);
    g.remove_key(12);
    assert!(!c.can_reach(&g, 1, 40, None));
    assert!(c.can_reach(&g, 1, 1, None));
    assert_eq!(c.bfs_reachable_servers(1, &c.network_graph), vec![40]);
    assert!(c.bfs_reachable_servers(1, &g).is_empty());
    assert!(c.is_connected(&c.network_graph, None));
    assert!(!c.is_connected(&g, None));
}

fn packet(hop_index: usize, hops: &[NodeId]) -> Packet {
    Packet {
        pack_type: PacketType::Ack(Ack { fragment_index: 0 }),
        routing_header: SourceRoutingHeader { hop_index, hops: hops.to_vec() },
        session_id: 0,
    }
}

#[test]
fn packets_take_shortcuts() {
    let c = controller(ring());
    assert_eq!(c.shortcut_target(&packet(0, &[11, 12, 40])), Some(40));
    assert_eq!(c.shortcut_target(&packet(0, &[11, 12])), None);
    assert_eq!(c.shortcut_target(&packet(0, &[])), None);
    assert_eq!(current_hop(&packet(1, &[1, 11, 40]).routing_header), Some((1, Some(11))));
    assert_eq!(current_hop(&packet(0, &[1, 11]).routing_header), Some((1, Some(11))));
    assert_eq!(current_hop(&packet(0, &[1]).routing_header), Some((1, None)));
    assert_eq!(current_hop(&packet(3, &[1]).routing_header), None);

    let mut plain = SimulationControllerImpl::new();
    plain.spawn_node(11, NodeType::Drone);
    plain.add_channel(11);
    let event = DroneEvent::ControllerShortcut(packet(0, &[11, 40]));
    assert_eq!(plain.handle_node_event(&event), Some(11));
    assert_eq!(plain.handle_node_event(&DroneEvent::PacketSent(packet(0, &[11]))), None);
    plain.crash(11);
    assert!(plain.nodes.is_empty());
    assert_eq!(plain.handle_node_event(&event), None);
}

#[test]
fn shared_channels_of_a_node_are_removed() {
    let mut s = SharedSenders::new();
    s.insert(1, 2);
    s.insert(2, 3);
    s.insert(3, 1);
    s.remove_mentions(1);
    assert!(s.contains(2, 3));
    assert!(!s.contains(1, 2) && !s.contains(3, 1));
}
