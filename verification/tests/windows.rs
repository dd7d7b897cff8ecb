use krusty_club::adjacency::Adjacency;
use krusty_club::chat_ui::{
    code_text, is_picture_extension, preview, ChatMessage, ChatType, ChatUIState, ClientStatus,
};
use krusty_club::config::{ClientConfig, DroneConfig, ParsedConfig, ServerConfig};
use krusty_club::gui_queue::GuiQueue;
use krusty_club::network_app::{
    parse_connections, single_fragment, topology_name, NetworkApp, SpawnFault,
};
use krusty_club::packet::{NodeId, NodeType};
use krusty_club::presets::{look_of_line, preset, shade_of, Shade};
use krusty_club::renderer::{NetworkRenderer, Node, Spot};
use krusty_club::renderer_changes::{neighbours_text, NewSpot};
use krusty_club::sc_backend::SimulationController;
use krusty_club::topology::Topology;

fn ring() -> ParsedConfig {
    let drone = |id: NodeId, links: &[NodeId]| DroneConfig {
        id,
        connected_node_ids: links.to_vec(),
        pdr: 0,
    };
    ParsedConfig {
        drone: vec![
            drone(11, &[12, 13, 1, 40]),
            drone(12, &[11, 13, 1, 40]),
            drone(13, &[11, 12, 40]),
        ],
        client: vec![ClientConfig { id: 1, connected_drone_ids: vec![11, 12] }],
        server: vec![ServerConfig { id: 40, connected_drone_ids: vec![11, 12, 13] }],
    }
}

fn star() -> ParsedConfig {
    ParsedConfig {
        drone: (1..=10u8)
            .map(|i| DroneConfig {
                id: i,
                connected_node_ids: vec![(i + 2) % 10 + 1, (i + 6) % 10 + 1],
                pdr: 0,
            })
            .collect(),
        client: vec![ClientConfig { id: 100, connected_drone_ids: vec![1] }],
        server: vec![ServerConfig { id: 200, connected_drone_ids: vec![2, 3] }],
    }
}

fn app(config: ParsedConfig) -> NetworkApp {
    let shared = config.setup_channels();
    let commands: Vec<NodeId> = config.drone.iter().map(|d| d.id).collect();
    let mut packets = Adjacency::new();
    for id in config
        .drone
        .iter()
        .map(|d| d.id)
        .chain(config.client.iter().map(|c| c.id))
        .chain(config.server.iter().map(|s| s.id))
    {
        packets.add_key(id);
    }
    let mut a =
        NetworkApp::new(SimulationController::new(config, commands, packets, shared, vec![]));
    a.network_renderer.build_from_config(&a.controller.config);
    a
}

#[test]
fn networks_without_a_shape_stand_in_a_grid() {
    let mut r = NetworkRenderer::new();
    r.build_from_config(&ring());
    assert_eq!(r.nodes.len(), 5);
    assert_eq!(r.nodes[0].spot, Spot::Cell(0, 0, 3));
    assert_eq!(r.nodes[4].spot, Spot::Cell(1, 1, 3));
    assert_eq!(r.nodes[3].node_type, NodeType::Client);
    assert!(r.edges.is_empty());
    r.sync_connections_with_config(&ring());
    assert_eq!(r.edges.len(), 16);
    assert_eq!(r.edges[0], (0, 1));
    assert_eq!(r.get_drone_ids(), vec![11, 12, 13]);
    assert_eq!(r.get_client_ids(), vec![1]);
    assert_eq!(r.get_server_ids(), vec![40]);
}

#[test]
fn stars_are_drawn_as_rings() {
    let mut r = NetworkRenderer::new();
    r.build_from_config(&star());
    assert_eq!(r.current_topology, Some(Topology::Star));
    assert_eq!(r.nodes.len(), 12);
    assert_eq!(r.nodes[9].spot, Spot::Ring(9));
    assert_eq!(r.nodes[10].spot, Spot::Below(0));
    assert_eq!(r.nodes[11].spot, Spot::Above(0));
    assert_eq!(r.edges.len(), 23);
    let mut grown = star();
    grown.drone.push(DroneConfig { id: 50, connected_node_ids: vec![1], pdr: 0 });
    let places = r.rebuild_preserving_topology(&grown);
    assert_eq!(places.len(), 1);
    assert_eq!(places[0].0, 50);
    assert!(matches!(places[0].1, NewSpot::Free));
    assert_eq!(r.nodes[11].spot, Spot::Kept);
    assert!(r.nodes[11].manual_position);
    assert!(matches!(r.position_new_drone(&vec![1]), NewSpot::AfterLast));
}

#[test]
fn trees_and_butterflies_have_ten_seats() {
    let mut r = NetworkRenderer::new();
    let c = star();
    r.build_topology_layout(Topology::Tree, &c, &vec![]);
    assert_eq!(r.nodes[0].spot, Spot::Level(1, 0));
    assert_eq!(r.nodes[2].spot, Spot::Level(2, 1));
    assert_eq!(r.nodes[5].spot, Spot::Level(3, 2));
    assert_eq!(r.nodes[9].spot, Spot::Level(4, 3));
    let mut b = NetworkRenderer::new();
    b.build_topology_layout(Topology::Butterfly, &c, &vec![]);
    assert_eq!(b.nodes[3].spot, Spot::Wing(3));
    let mut n = NetworkRenderer::new();
    n.build_topology_layout(Topology::SubNet, &c, &vec![]);
    assert_eq!(n.nodes[6].spot, Spot::SubNet(6));
    let mut d = NetworkRenderer::new();
    d.build_topology_layout(Topology::DoubleChain, &c, &vec![]);
    assert_eq!(d.nodes[6].spot, Spot::Chain(6));
}

#[test]
fn drawn_networks_change() {
    let mut r = NetworkRenderer::new();
    let mut c = ring();
    r.build_from_config(&c);
    assert!(!r.add_connection(1, 13, &mut c), "the client has two drones");
    assert!(!r.add_connection(1, 99, &mut c));
    c.client[0].connected_drone_ids = vec![11];
    assert!(r.add_connection(1, 13, &mut c));
    assert!(!r.add_connection(13, 1, &mut c), "they are joined already");
    assert_eq!(c.client[0].connected_drone_ids, vec![11, 13]);
    assert_eq!(r.edges, vec![(3, 2)]);
    assert_eq!(neighbours_text(&c, NodeType::Client, 1), "Connected to: [11, 13]");
    assert_eq!(neighbours_text(&c, NodeType::Client, 9), "Connected to: [(none)]");

    assert_eq!(r.add_new_node(NodeType::Drone, &mut c), 41);
    assert_eq!(c.drone[3].id, 41);
    r.add_drone(42, 9, &vec![12, 13], &mut c);
    assert_eq!(r.nodes[6].spot, Spot::Beside(1));
    assert_eq!(r.nodes[3].spot, Spot::BelowOf(1, 1));
    assert_eq!(r.nodes[4].spot, Spot::AboveOf(1, 1));
    assert_eq!(r.edges, vec![(3, 2), (6, 1), (6, 2)]);
    assert_eq!(c.drone[2].connected_node_ids, vec![11, 12, 40, 1, 42]);
    r.add_drone(42, 8, &vec![12], &mut c);
    assert_eq!(r.nodes[6].pdr, 8);
    assert_eq!(r.edges, vec![(3, 2), (6, 1)]);

    r.node_crashed(6, &mut c);
    assert!(!r.nodes[6].active);
    assert_eq!(r.edges, vec![(3, 2)]);
    let (lines, drones) = (r.edges.clone(), c.drone[2].connected_node_ids.clone());
    r.remove_edges_of_crashed_node(99, &mut c);
    assert_eq!(r.edges, lines);
    assert_eq!(c.drone[2].connected_node_ids, drones);
    assert_eq!(r.node_id_to_index.get(&1), Some(&3));
    r.remove_edges_of_crashed_node(1, &mut c);
    assert!(r.edges.is_empty());
    assert!(!c.drone[2].connected_node_ids.contains(&1));
    assert!(c.client[0].connected_drone_ids.is_empty());
    let options = r.peer_options(11);
    assert_eq!(options[0], (12, "Drone 12".to_string()));
    assert_eq!(options[2], (1, "Client 1".to_string()));
    r.sender_removed(11, 12, &mut c);
    assert_eq!(c.drone[0].connected_node_ids, vec![13, 40]);
    assert_eq!(c.drone[1].connected_node_ids, vec![13, 40]);
}

#[test]
fn presets_are_drawn() {
    let s = preset("star");
    assert_eq!(s.nodes.len(), 13);
    assert_eq!(s.nodes[0].id, 1);
    assert_eq!(s.edges[9], (10, 3));
    assert_eq!(s.edges[13], (102, 7));
    let d = preset("double_chain");
    assert_eq!(d.edges.len(), 16);
    assert_eq!(d.edges[8], (1, 6));
    assert_eq!(d.edges[15], (101, 10));
    let b = preset("butterfly");
    assert_eq!(b.edges[0..3].to_vec(), vec![(2, 3), (2, 0), (3, 1)]);
    assert_eq!(b.edges.len(), 16);
    let t = preset("tree");
    assert_eq!(t.edges[2..4].to_vec(), vec![(1, 3), (2, 3)]);
    assert_eq!(t.edges[8..11].to_vec(), vec![(3, 6), (4, 6), (5, 6)]);
    assert_eq!(t.edges.len(), 24);
    let n = preset("sub-net");
    assert_eq!(n.edges[5], (5, 7));
    assert_eq!(n.edges.len(), 16);
    assert!(preset("custom").nodes.is_empty());
    assert!(preset("?").edges.is_empty());
}

#[test]
fn lines_and_nodes_have_colours() {
    assert_eq!(look_of_line(NodeType::Server, NodeType::Drone), (Shade::Blue, false));
    assert_eq!(look_of_line(NodeType::Client, NodeType::Drone), (Shade::Yellow, true));
    assert_eq!(look_of_line(NodeType::Drone, NodeType::Drone), (Shade::Gray, false));
    let mut n = Node::drone(1, Spot::Free, 0);
    assert_eq!(shade_of(&n), Shade::Green);
    n.active = false;
    assert_eq!(shade_of(&n), Shade::Red);
    assert_eq!(shade_of(&Node::server(1, Spot::Free)), Shade::Blue);
    assert_eq!(shade_of(&Node::client(1, Spot::Free)), Shade::Yellow);
}

#[test]
fn crashes_and_links_are_shown() {
    let mut a = app(ring());
    let mut queue = GuiQueue::new_gui_input_queue();
    assert!(a.controller.crash_drone(13).is_ok());
    a.drone_crashed(13, &mut queue);
    assert_eq!(a.simulation_log[1], "\u{2705} Drone 13 crashed successfully");
    let gone = a.network_renderer.nodes.iter().find(|n| n.id == 13).unwrap();
    assert!(!gone.active);
    assert_eq!(a.network_renderer.get_drone_ids(), vec![11, 12]);

    let mut a = app(ring());
    a.controller.link_removed(13, 40, &mut queue);
    assert!(a.controller.add_link(13, 40).is_ok());
    a.link_added(13, 40, &mut queue);
    assert_eq!(a.simulation_log[1], "\u{1f517} Connected 13 \u{2194} 40");
    assert!(a.set_packet_drop_rate(13, 5, "0.5", &mut queue).is_ok());
    assert_eq!(a.simulation_log[2], "Set PDR for drone 13 to 0.5");
    assert!(a.set_packet_drop_rate(77, 5, "0.5", &mut queue).is_err());
    assert_eq!(a.simulation_log[3], "Failed to set PDR 77\u{2192}0.5: Drone not found");
}

#[test]
fn drones_are_spawned_from_the_window() {
    let mut a = app(ring());
    let mut queue = GuiQueue::new_gui_input_queue();
    let ids = parse_connections("11, 12,x,,300");
    assert_eq!(ids, vec![11, 12]);
    assert_eq!(a.check_spawn(11, &ids), Some(SpawnFault::IdInUse(11)));
    assert_eq!(
        a.check_spawn(11, &ids).unwrap().message(),
        "Cannot spawn: ID 11 already in use"
    );
    assert_eq!(
        a.check_spawn(14, &vec![]).unwrap().message(),
        "Cannot spawn: need at least one connection"
    );
    assert_eq!(
        a.check_spawn(14, &vec![11, 99]).unwrap().message(),
        "Cannot spawn: invalid connection IDs"
    );
    assert_eq!(a.check_spawn(14, &ids), None);
    assert!(a.controller.spawn_drone(14, 0, &ids).is_ok());
    let places = a.drone_spawned(14, 0, &ids, &mut queue);
    assert_eq!(places.len(), 1);
    assert!(a.simulation_log[1].ends_with("Drone 14 already present in config, updating."));
    assert_eq!(a.simulation_log[2], "\u{1f389} Spawned drone 14");
}

#[test]
fn shapes_are_logged() {
    let mut a = app(star());
    a.detect_and_log_topology("star.toml");
    assert_eq!(a.simulation_log[1], "Loaded topology from 'star.toml'");
    assert_eq!(a.simulation_log[2], "Detected topology: Star");
    assert_eq!(a.selected_topology, Some("Star".to_string()));
    let mut b = app(ring());
    b.detect_and_log_topology("x");
    assert_eq!(b.simulation_log[1], "Could not detect known topology from 'x'");
    assert!(b.topology_selected);
    b.flood_network();
    assert_eq!(
        b.simulation_log[2..].to_vec(),
        vec![
            "Flood Network initiated",
            "Sending flood request to server 40",
            "Sending flood request to client 1",
            "Network flood completed",
        ]
    );
    assert_eq!(topology_name("a.toml.toml"), Some("a".to_string()));
    assert_eq!(topology_name("a.txt"), None);
    let f = single_fragment(&[7u8; 200]);
    assert_eq!(f.length, 128);
    let g = single_fragment(&[7u8; 2]);
    assert_eq!((g.length, g.data[1], g.data[2]), (2, 7, 0));
}

fn chat() -> (ChatUIState, GuiQueue) {
    let mut ui = ChatUIState::new();
    ui.bootstrap(&vec![1, 2], &vec![40]);
    let mut q = GuiQueue::new_gui_input_queue();
    for id in [1, 2] {
        ui.select_server(40);
        ui.login(id, 1_000_042, &mut q);
    }
    (ui, q)
}

#[test]
fn users_log_in_and_out() {
    let (mut ui, mut q) = chat();
    assert_eq!(ui.clients_at(40), vec![1, 2]);
    assert_eq!(ui.status_of(1), ClientStatus::Connected);
    assert_eq!(ui.client_server_codes.get(&(1, 40)), Some(&"000042".to_string()));
    assert_eq!(q.take_message(1).unwrap(), "[Login]::40");
    ui.select_client(1);
    ui.logout(1, &mut q);
    assert_eq!(ui.status_of(1), ClientStatus::Offline);
    assert_eq!(ui.clients_at(40), vec![2]);
    assert_eq!(ui.selected_client, None);
    assert_eq!(q.take_message(1).unwrap(), "[Logout]");
    ui.logout(1, &mut q);
    assert!(q.take_message(1).is_none());
    assert_eq!(code_text(999_999), "999999");
}

#[test]
fn normal_chats_are_kept_and_temporary_ones_are_not() {
    let (mut ui, mut q) = chat();
    q.take_message(1);
    q.take_message(2);
    assert!(ui.can_ask(1, 2));
    assert!(!ui.can_ask(1, 1));
    assert!(!ui.can_ask(1, 3));
    ui.request_chat(1, 2);
    assert_eq!(ui.pending_chat_request, Some((1, 2)));
    assert_eq!(ui.selected_server, Some(40));
    ui.select_client(1);
    ui.accept(&mut q);
    assert_eq!(ui.active_chat_pair, None, "only the client that was asked can answer");
    ui.request_chat(1, 2);
    ui.accept(&mut q);
    assert_eq!(ui.active_chat_pair, Some((1, 2)));
    assert_eq!(q.take_message(1).unwrap(), "[ChatRequest]::2");
    ui.chat_input = "hello".to_string();
    ui.send_message(&mut q);
    assert_eq!(q.take_message(2).unwrap(), "[MessageTo]::1::hello");
    assert_eq!(ui.chat_input, "");
    ui.chat_input = "  ".to_string();
    ui.send_message(&mut q);
    assert!(q.take_message(2).is_none());
    ui.end_chat(&mut q);
    assert_eq!(q.take_message(1).unwrap(), "[ChatFinish]::2");
    assert_eq!(q.take_message(2).unwrap(), "[ChatFinish]::1");
    assert_eq!(ui.status_of(2), ClientStatus::Connected);

    ui.request_chat(1, 2);
    ui.pending_chat_type = Some(ChatType::Temporary);
    ui.accept(&mut q);
    assert!(ui.chat_messages.is_empty());
    ui.chat_input = "secret".to_string();
    ui.send_message(&mut q);
    ui.end_chat(&mut q);
    assert!(ui.chat_messages.is_empty());

    ui.request_chat(2, 1);
    ui.decline();
    assert_eq!(ui.pending_chat_request, None);
    ui.request_chat(2, 1);
    ui.accept(&mut q);
    assert_eq!(
        ui.chat_messages,
        vec![ChatMessage { from: 2, content: "hello".to_string() }]
    );
}

#[test]
fn requests_are_queued() {
    let (mut ui, mut q) = chat();
    q.take_message(1);
    ui.ask("[ClientListRequest]", &mut q);
    assert!(q.take_message(1).is_none(), "no client is picked");
    ui.selected_client = Some(1);
    ui.ask("[MediaListRequest]", &mut q);
    assert_eq!(q.take_message(1).unwrap(), "[MediaListRequest]");
    ui.send_media("[MediaUpload]", "x", &vec![0, 1, 2], &mut q);
    assert_eq!(q.take_message(1).unwrap(), "[MediaUpload]::x::AAEC");
    ui.selected_server = Some(40);
    ui.broadcast_media("x", &vec![0, 1, 3], &mut q);
    assert_eq!(q.take_message(40).unwrap(), "[MediaBroadcast]::x::AAED");
    ui.download_media_name_input = " cat ".to_string();
    ui.request_download(&mut q);
    assert_eq!(q.take_message(1).unwrap(), "[MediaDownloadRequest]::cat");
    assert_eq!(ui.download_result_message, Some("Requested \"cat\"".to_string()));
    ui.request_download(&mut q);
    assert!(q.take_message(1).is_none());
    ui.open_history();
    assert!(ui.show_history_popup);
    ui.request_history(&mut q);
    assert!(ui.show_history_popup, "the ids cannot be read");
    ui.history_client_id_input = "1".to_string();
    ui.history_target_id_input = "2".to_string();
    ui.request_history(&mut q);
    assert_eq!(q.take_message(1).unwrap(), "[HistoryRequest]::1::2");
    assert!(!ui.show_history_popup);
}

#[test]
fn long_messages_are_shortened() {
    assert_eq!(preview("[Logout]").unwrap(), "[Logout]");
    assert_eq!(
        preview("[MediaUpload]::cat::ABCDEFGH").unwrap(),
        "[MediaUpload]::cat::ABCDE..."
    );
    assert_eq!(
        preview("[MediaBroadcast]::cat::ABCDEFGH").unwrap(),
        "[MediaBroadcast]::cat::ABC..."
    );
    assert_eq!(preview("[MediaUpload]::cat::AB").unwrap(), "[MediaUpload]::cat::AB...");
    assert_eq!(preview("[MediaBroadcast]::cat::AB"), None);
    assert_eq!(preview("[MediaUpload]::cat::\u{e9}\u{e9}\u{e9}"), None);
    assert!(is_picture_extension("JPG"));
    assert!(is_picture_extension("png"));
    assert!(!is_picture_extension("gif"));
}
