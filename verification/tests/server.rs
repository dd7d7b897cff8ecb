use krusty_club::channels::SharedSenders;
use krusty_club::fragment::{fragment_bytes, message_text};
use krusty_club::notices::{read_notice, Notice};
use krusty_club::packet::{
    Ack, FloodRequest, FloodResponse, Fragment, Nack, NackType, NodeId, NodeType, Outgoing, Packet,
    PacketType, SourceRoutingHeader,
};
use krusty_club::server::server;
use krusty_club::server_control::{read_server_change, ServerChange};
use krusty_club::server_network::NetworkGraph;

/// Server 40 behind drone 11, which leads to clients 1 and 2 and to server 41.
fn small_server() -> server {
    let mut shared = SharedSenders::new();
    for (a, b) in [(40, 11), (11, 1), (11, 2), (11, 41)] {
        shared.insert(a, b);
        shared.insert(b, a);
    }
    let mut s = server::new(40, vec![11], Some(shared));
    for (id, t) in [(1, NodeType::Client), (2, NodeType::Client), (41, NodeType::Server)] {
        let response = FloodResponse {
            flood_id: 1,
            path_trace: vec![(40, NodeType::Server), (11, NodeType::Drone), (id, t)],
        };
        s.handle_flood_response(&response);
    }
    s
}

/// The texts of the packets with fragments, whole messages only.
fn texts(out: &[Outgoing]) -> Vec<(NodeId, String)> {
    let mut r: Vec<(NodeId, String)> = Vec::new();
    let mut bytes: Vec<u8> = Vec::new();
    for o in out {
        if let PacketType::MsgFragment(f) = &o.packet.pack_type {
            bytes.extend_from_slice(&f.data[..f.length as usize]);
            if f.fragment_index + 1 == f.total_n_fragments {
                let target = *o.packet.routing_header.hops.last().unwrap();
                r.push((target, String::from_utf8(bytes.clone()).unwrap()));
                bytes.clear();
            }
        }
    }
    r
}

fn tell(s: &mut server, client: NodeId, session: u64, text: &str) -> Vec<(NodeId, String)> {
    let mut out: Vec<Outgoing> = Vec::new();
    s.handle_complete_message(client, session, text, &mut out);
    texts(&out)
}

fn pair(to: NodeId, text: &str) -> (NodeId, String) {
    (to, text.to_string())
}

#[test]
fn clients_log_in_and_out() {
    let mut s = small_server();
    assert_eq!(tell(&mut s, 1, 7, "[Login]::40"), vec![pair(1, "[LoginAck]::7")]);
    assert_eq!(s.registered_clients, vec![1]);
    assert!(tell(&mut s, 1, 8, "[Login]::40").is_empty());
    assert!(tell(&mut s, 2, 9, "[Login]::41").is_empty());
    assert_eq!(tell(&mut s, 2, 9, "[Login]::40"), vec![pair(2, "[LoginAck]::9")]);
    assert_eq!(
        tell(&mut s, 2, 10, "[ClientListRequest]"),
        vec![pair(2, "[ClientListResponse]::[1, 2]")]
    );
    assert!(tell(&mut s, 1, 11, "[Logout]").is_empty());
    assert_eq!(s.registered_clients, vec![2]);
}

#[test]
fn messages_are_handed_on_and_recorded() {
    let mut s = small_server();
    tell(&mut s, 1, 1, "[Login]::40");
    tell(&mut s, 2, 2, "[Login]::40");
    assert_eq!(
        tell(&mut s, 1, 3, "[MessageTo]::2::good::morning "),
        vec![pair(2, "[MessageFrom]::1::good::morning")]
    );
    assert_eq!(
        tell(&mut s, 2, 4, "[HistoryRequest]::2::1"),
        vec![pair(2, "[HistoryResponse]::1:\n good::morning")]
    );
    assert_eq!(
        tell(&mut s, 1, 5, "[MessageTo]::9::hello"),
        vec![pair(1, "error_wrong_client_id!")]
    );
    assert_eq!(
        tell(&mut s, 1, 6, "[HistoryRequest]::1::9"),
        vec![pair(1, "[HistoryResponse]::No history available")]
    );
    assert_eq!(tell(&mut s, 1, 7, "[ChatRequest]::2"), vec![pair(1, "[ChatStart]::true")]);
    assert_eq!(tell(&mut s, 1, 7, "[ChatRequest]::9"), vec![pair(1, "[ChatStart]::false")]);
}

#[test]
fn finished_chats_reach_other_servers() {
    let mut s = small_server();
    tell(&mut s, 1, 1, "[Login]::40");
    tell(&mut s, 2, 2, "[Login]::40");
    tell(&mut s, 1, 3, "[MessageTo]::2::hi");
    let spread = tell(&mut s, 1, 4, "[ChatFinish]::2");
    assert_eq!(spread.len(), 1);
    assert_eq!(spread[0], pair(41, "[ChatHistoryUpdate]::40::[[1,2],[\"1:\\n hi\"]]"));
    let mut other = small_server();
    tell(&mut other, 40, 5, &spread[0].1);
    assert_eq!(other.chat_history.get(&(1, 2)), Some(&vec!["1:\n hi".to_string()]));
    tell(&mut other, 40, 5, "[ChatHistoryUpdate]::40::nonsense");
    assert_eq!(other.chat_history.get(&(1, 2)), Some(&vec!["1:\n hi".to_string()]));
}

#[test]
fn records_stay_short() {
    let mut s = small_server();
    tell(&mut s, 2, 1, "[Login]::40");
    for i in 0..60 {
        tell(&mut s, 1, 2, &format!("[MessageTo]::2::{}", i));
    }
    let h = s.chat_history.get(&(1, 2)).unwrap();
    assert_eq!(h.len(), 50);
    assert_eq!(h[0], "1:\n 10");
    assert_eq!(h[49], "1:\n 59");
}

#[test]
fn uploads_can_be_downloaded() {
    let mut s = small_server();
    tell(&mut s, 1, 1, "[Login]::40");
    tell(&mut s, 2, 2, "[Login]::40");
    assert_eq!(
        tell(&mut s, 1, 3, "[MediaUpload]::cat.png::AAEC"),
        vec![pair(1, "[MediaUploadAck]::cat.png")]
    );
    assert_eq!(
        tell(&mut s, 2, 4, "[MediaDownloadRequest]::cat.png"),
        vec![pair(2, "[MediaDownloadResponse]::cat.png::AAEC")]
    );
    assert_eq!(
        tell(&mut s, 2, 4, "[MediaDownloadRequest]::dog.png"),
        vec![pair(2, "[MediaDownloadResponse]::ERROR::NotFound")]
    );
    assert_eq!(
        tell(&mut s, 2, 4, "[MediaListRequest]"),
        vec![pair(2, "[MediaListResponse]::cat.png")]
    );
    assert_eq!(
        tell(&mut s, 1, 5, "[MediaBroadcast]::dog.png::AAED"),
        vec![
            pair(2, "[MediaDownloadResponse]::dog.png::AAED"),
            pair(1, "[MediaBroadcastAck]::dog.png::Broadcasted"),
        ]
    );
}

#[test]
fn messages_in_fragments_come_out_whole() {
    let mut s = small_server();
    let text: String = (0..300).map(|i| char::from(b'a' + (i % 26) as u8)).collect();
    let frags = fragment_bytes(text.as_bytes());
    assert_eq!(frags.len(), 3);
    let key = (5, 1);
    assert!(s.store_fragment(key, &frags[2]).is_none());
    assert!(s.store_fragment(key, &frags[0]).is_none());
    assert!(s.store_fragment(key, &frags[0]).is_none());
    let whole = s.store_fragment(key, &frags[1]).unwrap();
    assert_eq!(message_text(&whole), text);
}

#[test]
fn invalid_bytes_are_replaced() {
    assert_eq!(message_text(&vec![b'a', 0xff, b'b']), "a\u{fffd}b");
}

#[test]
fn fragments_are_acknowledged_and_answered() {
    let mut s = small_server();
    let frags = fragment_bytes(b"[Login]::40");
    let packet = Packet {
        pack_type: PacketType::MsgFragment(frags[0]),
        routing_header: SourceRoutingHeader { hop_index: 2, hops: vec![1, 11, 40] },
        session_id: 77,
    };
    let mut out: Vec<Outgoing> = Vec::new();
    assert!(s.can_process(&packet));
    s.process_packet(&packet, &mut out);
    let acks: Vec<&Outgoing> =
        out.iter().filter(|o| matches!(o.packet.pack_type, PacketType::Ack(_))).collect();
    assert_eq!(acks.len(), 1);
    assert_eq!(acks[0].to, 11);
    assert_eq!(acks[0].packet.pack_type, PacketType::Ack(Ack { fragment_index: 0 }));
    assert_eq!(acks[0].packet.routing_header.hops, vec![40, 11, 1]);
    assert_eq!(texts(&out), vec![pair(1, "[LoginAck]::77")]);
}

#[test]
fn lost_fragments_are_sent_again() {
    let mut s = small_server();
    let mut out: Vec<Outgoing> = Vec::new();
    s.send_chat_message(9, 1, "hello", &mut out);
    assert_eq!(out.len(), 1);
    assert_eq!(out[0].packet.routing_header.hops, vec![40, 11, 1]);
    let nack = Packet {
        pack_type: PacketType::Nack(Nack { fragment_index: 0, nack_type: NackType::Dropped }),
        routing_header: SourceRoutingHeader { hop_index: 1, hops: vec![11, 40] },
        session_id: 9,
    };
    let mut again: Vec<Outgoing> = Vec::new();
    assert!(s.can_process(&nack));
    s.process_packet(&nack, &mut again);
    assert_eq!(texts(&again), vec![pair(1, "hello")]);
}

#[test]
fn floods_are_spread_once_and_answered() {
    let mut s = server::new(40, vec![11, 12], None);
    let request = Packet {
        pack_type: PacketType::FloodRequest(FloodRequest {
            flood_id: 3,
            initiator_id: 1,
            path_trace: vec![(1, NodeType::Client), (11, NodeType::Drone)],
        }),
        routing_header: SourceRoutingHeader { hop_index: 0, hops: vec![] },
        session_id: 3,
    };
    let mut out: Vec<Outgoing> = Vec::new();
    s.process_packet(&request, &mut out);
    assert_eq!(out.len(), 1);
    assert_eq!(out[0].to, 12);
    out.clear();
    s.process_packet(&request, &mut out);
    assert_eq!(out.len(), 1);
    assert_eq!(out[0].to, 11);
    assert_eq!(out[0].packet.routing_header.hops, vec![40, 11, 1]);
    match &out[0].packet.pack_type {
        PacketType::FloodResponse(r) => {
            assert_eq!(r.path_trace.last(), Some(&(40, NodeType::Server)));
        }
        other => panic!("unexpected packet {:?}", other),
    }
}

#[test]
fn discoveries_have_ids_of_their_own() {
    let mut s = server::new(40, vec![11, 12], None);
    s.network_graph.set_node_type(11, NodeType::Drone);
    let mut out: Vec<Outgoing> = Vec::new();
    s.initiate_network_discovery(&mut out);
    s.initiate_network_discovery(&mut out);
    let ids: Vec<u64> = out
        .iter()
        .filter_map(|o| match &o.packet.pack_type {
            PacketType::FloodRequest(r) => Some(r.flood_id),
            _ => None,
        })
        .collect();
    assert_eq!(ids.len(), 2);
    assert_ne!(ids[0], ids[1]);
    out.clear();
    s.discover(5, &mut out);
    assert_eq!(out.len(), 1);
    assert_eq!(out[0].packet.session_id, 5);
}

#[test]
fn routes_of_servers_avoid_losses_and_hosts() {
    let mut g = NetworkGraph::new();
    for (a, ta, b, tb) in [
        (40, NodeType::Server, 11, NodeType::Drone),
        (11, NodeType::Drone, 1, NodeType::Client),
        (40, NodeType::Server, 12, NodeType::Drone),
        (12, NodeType::Drone, 1, NodeType::Client),
        (40, NodeType::Server, 2, NodeType::Client),
        (2, NodeType::Client, 3, NodeType::Client),
    ] {
        g.add_link(a, ta, b, tb);
        g.add_link(b, tb, a, ta);
    }
    g.increment_drop(40, 11);
    assert_eq!(g.best_path(40, 1, &None), Some(vec![40, 12, 1]));
    g.increment_drop(40, 12);
    g.increment_drop(12, 1);
    assert_eq!(g.best_path(40, 1, &None), Some(vec![40, 11, 1]));
    assert_eq!(g.best_path(40, 3, &None), None);
    g.remove_link(11, 1);
    assert_eq!(g.best_path(40, 1, &None), Some(vec![40, 12, 1]));
    assert_eq!(g.get_node_type(12), Some(NodeType::Drone));
    assert!(g.knows(12));
    g.remove_node(2);
    assert!(!g.knows(2));
    assert_eq!(g.best_path(40, 99, &None), None);
    g.set_node_type(77, NodeType::Server);
    assert!(g.typed_ids().contains(&77));
}

#[test]
fn changes_are_read_by_servers() {
    assert!(matches!(read_server_change("AddSender::1::2"), ServerChange::AddSender(1, 2)));
    assert!(matches!(read_server_change("RemoveSender::1::2"), ServerChange::RemoveSender(1, 2)));
    match read_server_change("SpawnDrone::9::[1, 2]") {
        ServerChange::SpawnDrone(9, peers) => assert_eq!(peers, vec![1, 2]),
        other => panic!("unexpected change {:?}", other),
    }
    assert!(matches!(read_server_change("Crash::7"), ServerChange::Crash(Some(7))));
    assert!(matches!(read_server_change("newpdr"), ServerChange::Unknown));
}

#[test]
fn servers_take_announcements_in() {
    let mut s = small_server();
    let mut out: Vec<Outgoing> = Vec::new();
    s.process_gui_message("[FloodRequired]::Crash::11", &mut out);
    assert!(!s.packet_sender.contains(&11));
    assert!(!s.network_graph.knows(11));
}

#[test]
fn fragments_without_a_slot_are_refused() {
    let s = small_server();
    let packet = Packet {
        pack_type: PacketType::MsgFragment(Fragment {
            fragment_index: 3,
            total_n_fragments: 2,
            length: 1,
            data: [0; 128],
        }),
        routing_header: SourceRoutingHeader { hop_index: 1, hops: vec![1, 40] },
        session_id: 1,
    };
    assert!(!s.can_process(&packet));
}

#[test]
fn answers_are_understood() {
    let mut s = small_server();
    tell(&mut s, 1, 1, "[Login]::40");
    tell(&mut s, 2, 2, "[Login]::40");
    let yes = tell(&mut s, 1, 3, "[ChatRequest]::2");
    assert!(matches!(read_notice(1, &yes[0].1), Notice::ChatAccepted));
    let no = tell(&mut s, 1, 3, "[ChatRequest]::7");
    assert!(matches!(read_notice(1, &no[0].1), Notice::ChatDenied));
    tell(&mut s, 1, 4, "[MessageTo]::2::good morning");
    let record = tell(&mut s, 2, 5, "[HistoryRequest]::2::1");
    match read_notice(2, &record[0].1) {
        Notice::History(text) => assert_eq!(text, "1:\n good morning"),
        other => panic!("unexpected notice {:?}", other),
    }
}

#[test]
fn graphs_go_by_the_channels_of_their_making() {
    let traces = [(11, NodeType::Drone), (1, NodeType::Client)];
    let response = FloodResponse {
        flood_id: 1,
        path_trace: vec![(40, NodeType::Server), traces[0], traces[1]],
    };
    let mut near = SharedSenders::new();
    near.insert(40, 11);

    let mut never = server::new(40, vec![11], None);
    never.attach_channels(Some(near));
    never.handle_flood_response(&response);
    assert_eq!(never.compute_best_path(40, 1), Some(vec![40, 11, 1]));

    let mut near = SharedSenders::new();
    near.insert(40, 11);
    let mut always = server::new(40, vec![11], Some(near));
    always.handle_flood_response(&response);
    assert_eq!(always.compute_best_path(40, 1), None);

    let mut all = SharedSenders::new();
    all.insert(40, 11);
    all.insert(11, 1);
    always.attach_channels(Some(all));
    always.handle_flood_response(&response);
    assert_eq!(always.compute_best_path(40, 1), None);
}

#[test]
fn repeated_fragments_may_say_anything_of_their_number() {
    let mut s = small_server();
    let mut out: Vec<Outgoing> = Vec::new();
    let header = SourceRoutingHeader { hop_index: 2, hops: vec![1, 11, 40] };
    let mut fragment =
        Fragment { fragment_index: 0, total_n_fragments: 2, length: 128, data: [b'x'; 128] };
    let packet = |f: &Fragment| Packet {
        pack_type: PacketType::MsgFragment(*f),
        routing_header: header.clone(),
        session_id: 6,
    };
    s.process_packet(&packet(&fragment), &mut out);
    fragment.total_n_fragments = 0;
    assert!(s.can_process(&packet(&fragment)));
    s.process_packet(&packet(&fragment), &mut out);
    fragment.fragment_index = 1;
    assert!(!s.can_process(&packet(&fragment)));
    fragment.fragment_index = 2;
    fragment.total_n_fragments = 2;
    assert!(!s.can_process(&packet(&fragment)));
}
