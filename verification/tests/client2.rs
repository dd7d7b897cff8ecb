use krusty_club::channels::SharedSenders;
use krusty_club::client2::{
    read_news, ClientGlobals, CommandError, CommandResult, MyClient, News, RouteStep,
    FIRST_ATTEMPT, FIRST_SEARCH, OUT_OF_ATTEMPTS, SEARCH_AGAIN,
};
use krusty_club::fragment::fragment_bytes;
use krusty_club::media::{
    detect_media_format, display_media, media_message, MediaKind,
};
use krusty_club::mesh::Mesh;
use krusty_club::notices::{read_notice, Notice};
use krusty_club::packet::{
    FloodRequest, FloodResponse, Nack, NackType, NodeId, NodeType, Outgoing, Packet, PacketType,
    SourceRoutingHeader,
};
use krusty_club::text::IdFault;

fn channels(pairs: &[(NodeId, NodeId)]) -> Option<SharedSenders> {
    let mut shared = SharedSenders::new();
    for &(a, b) in pairs {
        shared.insert(a, b);
        shared.insert(b, a);
    }
    Some(shared)
}

/// Client 4 with a drone 11 that leads to server 40.
fn near_server() -> MyClient {
    let mut c = MyClient::new(4, vec![11], channels(&[(4, 11), (11, 40)]));
    let (a, _) = c.mesh.add_node_no_duplicate(4, NodeType::Client);
    let (b, _) = c.mesh.add_node_no_duplicate(11, NodeType::Drone);
    let (d, _) = c.mesh.add_node_no_duplicate(40, NodeType::Server);
    assert!(c.mesh.add_edge_no_duplicate(a, b, 1));
    assert!(c.mesh.add_edge_no_duplicate(b, d, 1));
    c
}

fn globals(server: NodeId) -> ClientGlobals {
    ClientGlobals { flood_ids: 0, session_ids: 0, chatting: false, peer: 0, server }
}

#[test]
fn messages_go_along_the_route() {
    let mut c = near_server();
    let mut g = globals(40);
    let mut out: Vec<Outgoing> = Vec::new();
    assert!(matches!(
        c.route_step(FIRST_SEARCH, &mut g, &mut out),
        RouteStep::Continue(FIRST_ATTEMPT)
    ));
    let hops = match c.route_step(FIRST_ATTEMPT, &mut g, &mut out) {
        RouteStep::Ready(hops) => hops,
        other => panic!("unexpected step {:?}", other),
    };
    assert_eq!(hops, vec![4, 11, 40]);
    assert!(out.is_empty());
    let text: String = "x".repeat(200);
    c.send_packet(&format!("{} \n", text), &hops, &mut g, &mut out);
    assert_eq!(out.len(), 2);
    assert_eq!(g.session_ids, 1);
    assert_eq!(c.sent_messages.get(&0).unwrap().len(), 2);
    match &out[1].packet.pack_type {
        PacketType::MsgFragment(f) => assert_eq!(f.length, 72),
        other => panic!("unexpected packet {:?}", other),
    }

    let nack = Packet {
        pack_type: PacketType::Nack(Nack { fragment_index: 1, nack_type: NackType::Dropped }),
        routing_header: SourceRoutingHeader { hop_index: 1, hops: vec![11, 4] },
        session_id: 0,
    };
    out.clear();
    assert!(c.can_process(&nack));
    let (news, ok) = c.process_packet(&nack, &mut g, &mut out);
    assert!(news.is_none() && ok);
    assert!(!out.is_empty());
    match &out[0].packet.pack_type {
        PacketType::MsgFragment(f) => assert_eq!(f.fragment_index, 1),
        other => panic!("unexpected packet {:?}", other),
    }
}

#[test]
fn without_a_route_the_client_floods_and_gives_up() {
    let mut c = MyClient::new(4, vec![11], channels(&[(4, 11)]));
    let mut g = globals(40);
    let mut out: Vec<Outgoing> = Vec::new();
    assert!(matches!(
        c.route_step(FIRST_SEARCH, &mut g, &mut out),
        RouteStep::Wait(100, SEARCH_AGAIN)
    ));
    assert_eq!(out.len(), 1);
    assert!(matches!(
        c.route_step(SEARCH_AGAIN, &mut g, &mut out),
        RouteStep::Continue(FIRST_ATTEMPT)
    ));
    assert!(matches!(c.route_step(FIRST_ATTEMPT, &mut g, &mut out), RouteStep::Wait(150, 3)));
    assert!(matches!(c.route_step(3, &mut g, &mut out), RouteStep::Wait(150, 4)));
    assert!(matches!(c.route_step(4, &mut g, &mut out), RouteStep::Wait(150, 5)));
    assert!(matches!(c.route_step(OUT_OF_ATTEMPTS, &mut g, &mut out), RouteStep::GiveUp));
    assert_eq!(g.flood_ids, 4);
}

fn refused(r: CommandResult) -> CommandError {
    match r {
        CommandResult::Refused(e) => e,
        other => panic!("unexpected result {:?}", other),
    }
}

#[test]
fn commands_follow_the_status_of_the_user() {
    let mut c = near_server();
    let mut g = ClientGlobals::new();
    let mut out: Vec<Outgoing> = Vec::new();
    assert_eq!(
        refused(c.process_gui_command("[Logout]", &mut g, &mut out)).message(),
        "You have yet to login to any server"
    );
    assert_eq!(
        refused(c.process_gui_command("[Login]::x", &mut g, &mut out)),
        CommandError::InvalidId(IdFault::InvalidDigit)
    );
    for id in ["", "x", "+", "-1", "256", "1000x", "99x"] {
        assert_eq!(
            refused(c.process_gui_command(&format!("[ChatRequest]::{}", id), &mut g, &mut out))
                .message(),
            id.parse::<u8>().unwrap_err().to_string()
        );
    }
    assert!(matches!(
        c.process_gui_command("[Login]::40", &mut g, &mut out),
        CommandResult::Send(None)
    ));
    assert_eq!(g.server, 40);
    assert_eq!(
        refused(c.process_gui_command("[ChatFinish]::7", &mut g, &mut out)),
        CommandError::NotChatting
    );
    assert!(matches!(
        c.process_gui_command("[ChatRequest]::7", &mut g, &mut out),
        CommandResult::Send(None)
    ));
    assert!(g.chatting && g.peer == 7);
    assert_eq!(
        refused(c.process_gui_command("[ChatRequest]::8", &mut g, &mut out)),
        CommandError::AlreadyChatting
    );
    assert_eq!(
        refused(c.process_gui_command("[Logout]", &mut g, &mut out)),
        CommandError::StillChatting
    );
    assert!(matches!(
        c.process_gui_command("[ChatFinish]::7", &mut g, &mut out),
        CommandResult::Send(None)
    ));
    assert!(!g.chatting && g.peer == 0);
    assert!(matches!(
        c.process_gui_command("[Logout]", &mut g, &mut out),
        CommandResult::Send(None)
    ));
    assert_eq!(
        refused(c.process_gui_command("[Dance]", &mut g, &mut out)),
        CommandError::UnknownFormat
    );
    assert!(out.is_empty());
}

#[test]
fn announcements_change_the_client() {
    let mut c = near_server();
    let mut g = globals(40);
    let mut out: Vec<Outgoing> = Vec::new();
    assert!(matches!(
        c.process_gui_command("[FloodRequired]::RemoveSender::4::11", &mut g, &mut out),
        CommandResult::NoChatCommand
    ));
    assert!(c.packet_send.is_empty());
    assert!(!c.mesh.joined(0, 1));
    assert!(matches!(
        c.process_gui_command("[FloodRequired]::AddSender::4::11", &mut g, &mut out),
        CommandResult::NoChatCommand
    ));
    assert_eq!(c.packet_send, vec![11]);
    assert!(c.mesh.joined(0, 1));
    assert!(matches!(
        c.process_gui_command("[FloodRequired]::Crash::11", &mut g, &mut out),
        CommandResult::NoChatCommand
    ));
    assert!(c.packet_send.is_empty());
    assert!(!c.mesh.knows(11));
    c.shared_senders = channels(&[(4, 12)]);
    c.process_gui_command("[FloodRequired]::SpawnDrone::12::[4, 40]", &mut g, &mut out);
    assert_eq!(c.packet_send, vec![12]);
    assert!(c.mesh.knows(12));
    let floods = g.flood_ids;
    c.process_gui_command("[FloodRequired]::SpawnDrone::13::oops", &mut g, &mut out);
    assert_eq!(g.flood_ids, floods);
}

#[test]
fn fragments_become_news() {
    let mut c = near_server();
    let mut g = globals(40);
    let text = format!("[MessageFrom]::7::{}", "y".repeat(150));
    let frags = fragment_bytes(text.as_bytes());
    assert_eq!(frags.len(), 2);
    let mut last: Option<News> = None;
    for (i, f) in frags.iter().enumerate() {
        let packet = Packet {
            pack_type: PacketType::MsgFragment(*f),
            routing_header: SourceRoutingHeader { hop_index: 2, hops: vec![40, 11, 4] },
            session_id: 3,
        };
        let mut out: Vec<Outgoing> = Vec::new();
        assert!(c.can_process(&packet));
        let (news, ok) = c.process_packet(&packet, &mut g, &mut out);
        assert!(ok);
        assert_eq!(news.is_some(), i == 1);
        assert!(out.is_empty(), "a receipt for the client's own hop goes nowhere");
        last = news;
    }
    match last {
        Some(News::Message(7, m)) => assert_eq!(m, "y".repeat(150)),
        other => panic!("unexpected news {:?}", other),
    }
    assert!(g.chatting && g.peer == 7);
}

#[test]
fn flood_requests_are_answered_or_spread() {
    let mut c = MyClient::new(4, vec![11, 12], None);
    let mut g = globals(0);
    let packet = Packet {
        pack_type: PacketType::FloodRequest(FloodRequest {
            flood_id: 8,
            initiator_id: 9,
            path_trace: vec![(9, NodeType::Client), (11, NodeType::Drone)],
        }),
        routing_header: SourceRoutingHeader { hop_index: 0, hops: vec![] },
        session_id: 8,
    };
    let mut out: Vec<Outgoing> = Vec::new();
    assert!(c.can_process(&packet));
    c.process_packet(&packet, &mut g, &mut out);
    assert!(out.iter().any(|o| o.to == 12));
    out.clear();
    c.process_packet(&packet, &mut g, &mut out);
    assert!(out.iter().all(|o| o.to == 11));
    assert!(matches!(out[0].packet.pack_type, PacketType::FloodResponse(_)));
    c.process_flood_response(&FloodResponse {
        flood_id: 1,
        path_trace: vec![(4, NodeType::Client), (11, NodeType::Drone), (40, NodeType::Server)],
    });
    assert!(c.mesh.knows(40));
    assert_eq!(c.mesh.node_type(40), Some(NodeType::Server));
}

#[test]
fn the_mesh_keeps_links_once_and_prefers_cheap_ones() {
    let mut m = Mesh::new();
    for (id, t) in [
        (4, NodeType::Client),
        (11, NodeType::Drone),
        (12, NodeType::Drone),
        (40, NodeType::Server),
    ] {
        assert!(m.add_node_no_duplicate(id, t).1);
    }
    assert_eq!(m.add_node_no_duplicate(11, NodeType::Drone), (1, false));
    for (a, b, w) in [(0, 1, 1), (1, 3, 1), (0, 2, 1), (2, 3, 5)] {
        assert!(m.add_edge_no_duplicate(a, b, w));
    }
    assert!(!m.add_edge_no_duplicate(1, 0, 9));
    assert_eq!(m.cost(0, 1), Some(1));
    let copy = m.duplicate();
    assert_eq!(m.best_path(4, 40, &None), Some(vec![4, 11, 40]));
    for _ in 0..10 {
        m.increase_cost(11);
    }
    assert_eq!(m.best_path(4, 40, &None), Some(vec![4, 12, 40]));
    m.remove_link(2, 3);
    assert_eq!(m.best_path(4, 40, &None), Some(vec![4, 11, 40]));
    m.remove_all_edges_with_node(1);
    assert!(!m.joined(0, 1));
    assert!(copy.joined(0, 1) && copy.joined(2, 3));
    assert_eq!(m.forget(12), Some(2));
    assert_eq!(m.forget(12), None);
}

#[test]
fn news_are_read() {
    assert!(matches!(read_news("[LoginAck]::5"), News::LoggedIn));
    assert!(matches!(read_news("[ChatStart]::true\0\0"), News::ChatStarted));
    assert!(matches!(read_news("[ChatStart]::false"), News::ChatFailed));
    assert!(matches!(
        read_news("[MediaDownloadResponse]::ERROR::NotFound"),
        News::MediaNotFound
    ));
    assert!(matches!(read_news("hm"), News::Unknown));
    match read_news("[MediaDownloadResponse]::a::/9j/AAAAAAAAAAAA") {
        News::Media(f) => {
            assert_eq!(f.bytes, vec![0xff, 0xd8, 0xff, 0, 0, 0, 0, 0, 0, 0, 0, 0]);
            assert_eq!(f.kind, MediaKind::Image);
        }
        other => panic!("unexpected news {:?}", other),
    }
    assert!(matches!(
        read_news("[MediaDownloadResponse]::a::!!"),
        News::MediaUnreadable(_)
    ));
}

#[test]
fn notices_are_read() {
    match read_notice(1, " [MessageFrom]::7::a::b ") {
        Notice::Message(7, m) => assert_eq!(m, "a::b"),
        other => panic!("unexpected notice {:?}", other),
    }
    match read_notice(1, "[ClientListResponse]::[1, 20, 255]") {
        Notice::ClientList(ids) => assert_eq!(ids, vec![1, 20, 255]),
        other => panic!("unexpected notice {:?}", other),
    }
    assert!(matches!(read_notice(1, "[ChatStart]::TRUE"), Notice::ChatAccepted));
    assert!(matches!(read_notice(1, "[ChatStart]::False"), Notice::ChatDenied));
    assert!(matches!(read_notice(1, "[ChatStart]::maybe"), Notice::InvalidChatStart(_)));
    assert!(matches!(read_notice(1, "[LoginAck]::17"), Notice::LoggedIn(17)));
    match read_notice(1, "[MediaListResponse]::a, b,,c") {
        Notice::MediaList(names) => assert_eq!(names, vec!["a", "b", "c"]),
        other => panic!("unexpected notice {:?}", other),
    }
    assert!(matches!(
        read_notice(1, "[MediaDownloadResponse]::x::@@"),
        Notice::NotBase64(_)
    ));
    assert!(matches!(
        read_notice(1, "[MediaDownloadResponse]::x::AAEC"),
        Notice::NotAnImage(_)
    ));
}

/// A picture of one black pixel.
fn bitmap() -> Vec<u8> {
    let mut b: Vec<u8> = vec![b'B', b'M', 58, 0, 0, 0, 0, 0, 0, 0, 54, 0, 0, 0];
    b.extend_from_slice(&[40, 0, 0, 0, 1, 0, 0, 0, 1, 0, 0, 0, 1, 0, 24, 0]);
    b.extend_from_slice(&[0; 24]);
    b.extend_from_slice(&[0, 0, 0, 0]);
    b
}

#[test]
fn pictures_survive_the_way() {
    let picture = bitmap();
    let m = media_message("[MediaDownloadResponse]", "dot", &picture);
    match read_notice(9, &m) {
        Notice::Preview(name, file, bytes) => {
            assert_eq!(name, "dot");
            assert_eq!(file, "media_preview_9.png");
            assert_eq!(bytes, picture);
        }
        other => panic!("unexpected notice {:?}", other),
    }
    assert_eq!(detect_media_format(&picture), "bmp");
    let data = m.rsplit("::").next().unwrap().to_string();
    let f = display_media("dot", &data).unwrap();
    assert_eq!(f.bytes, picture);
    assert_eq!(f.kind, MediaKind::Image);
    assert!(display_media("dot", "***").is_none());
}

/// Client 4 next to drone 11, which leads to server 40; drone 12 is linked to `beside`,
/// and its id is forgotten.
fn with_forgotten_drone(beside: NodeId) -> Mesh {
    let mut mesh = Mesh::new();
    let ids = [
        (4, NodeType::Client),
        (11, NodeType::Drone),
        (40, NodeType::Server),
        (12, NodeType::Drone),
    ];
    let mut at: Vec<(NodeId, u32)> = Vec::new();
    for (id, node_type) in ids {
        at.push((id, mesh.add_node_no_duplicate(id, node_type).0));
    }
    let index = |id: NodeId| at.iter().find(|x| x.0 == id).unwrap().1;
    assert!(mesh.add_edge_no_duplicate(index(4), index(11), 1));
    assert!(mesh.add_edge_no_duplicate(index(11), index(40), 1));
    assert!(mesh.add_edge_no_duplicate(index(beside), index(12), 1));
    assert_eq!(mesh.forget(12), Some(index(12)));
    mesh
}

#[test]
fn searches_end_at_nodes_without_an_id() {
    assert_eq!(with_forgotten_drone(11).best_path(4, 40, &None), None);
    assert_eq!(with_forgotten_drone(4).best_path(4, 11, &None), None);
    assert_eq!(with_forgotten_drone(40).best_path(4, 40, &None), Some(vec![4, 11, 40]));
    assert_eq!(with_forgotten_drone(11).best_path(4, 11, &None), Some(vec![4, 11]));
}

#[test]
fn links_are_removed_by_their_first_indices() {
    let mut m = Mesh::new();
    for id in [4, 11, 12] {
        m.add_node_no_duplicate(id, NodeType::Drone);
    }
    assert!(m.add_edge_no_duplicate(0, 1, 1));
    assert!(m.add_edge_no_duplicate(1, 2, 1));
    assert!(m.add_edge_no_duplicate(0, 2, 1));
    m.remove_all_edges_with_node(0);
    assert!(!m.joined(0, 1));
    assert!(!m.joined(0, 2));
    assert!(m.joined(1, 2));

    let mut m = Mesh::new();
    for id in [4, 11, 12] {
        m.add_node_no_duplicate(id, NodeType::Drone);
    }
    assert!(m.add_edge_no_duplicate(0, 1, 1));
    assert!(m.add_edge_no_duplicate(1, 2, 1));
    assert!(m.add_edge_no_duplicate(2, 0, 1));
    m.remove_all_edges_with_node(0);
    assert!(!m.joined(0, 1));
    assert!(m.joined(0, 2));
    assert!(m.joined(1, 2));
}
