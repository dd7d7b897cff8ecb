use krusty_club::channels::SharedSenders;
use krusty_club::client1;
use krusty_club::client2;
use krusty_club::client2::ClientGlobals;
use krusty_club::floods::FloodSet;
use krusty_club::packet::{
    FloodResponse, Nack, NackType, NodeId, NodeType, Outgoing, Packet, PacketType,
    SourceRoutingHeader,
};
use krusty_club::server::server;
use std::collections::HashMap;

fn channels(pairs: &[(NodeId, NodeId)]) -> SharedSenders {
    let mut shared = SharedSenders::new();
    for &(a, b) in pairs {
        shared.insert(a, b);
        shared.insert(b, a);
    }
    shared
}

/// Server 40 behind drone 11, which leads to client 1 and to server 41.
fn small_server() -> server {
    let mut s = server::new(40, vec![11], Some(channels(&[(40, 11), (11, 1), (11, 41)])));
    for (id, t) in [(1, NodeType::Client), (41, NodeType::Server)] {
        s.handle_flood_response(&FloodResponse {
            flood_id: 1,
            path_trace: vec![(40, NodeType::Server), (11, NodeType::Drone), (id, t)],
        });
    }
    s
}

fn first_client(server: Option<NodeId>) -> client1::MyClient {
    client1::MyClient::new(
        3,
        vec![11],
        HashMap::new(),
        server,
        FloodSet::new(),
        Some(channels(&[(3, 11), (11, 12)])),
    )
}

fn routing_error(node: NodeId, hops: Vec<NodeId>) -> Packet {
    Packet {
        pack_type: PacketType::Nack(Nack {
            fragment_index: 0,
            nack_type: NackType::ErrorInRouting(node),
        }),
        routing_header: SourceRoutingHeader { hop_index: 1, hops },
        session_id: 5,
    }
}

fn log_of(s: &mut server, client: NodeId, session: u64, text: &str) -> Vec<String> {
    let mut out: Vec<Outgoing> = Vec::new();
    s.handle_complete_message(client, session, text, &mut out)
}

#[test]
fn servers_log_the_messages_of_clients() {
    let mut s = small_server();
    assert_eq!(log_of(&mut s, 1, 1, "[Login]::40"), ["Client 1 registered to this server"]);
    assert!(log_of(&mut s, 1, 1, "[Login]::40").is_empty());
    assert_eq!(
        log_of(&mut s, 1, 2, "[ClientListRequest]"),
        ["server has the following connected clients: [1]"]
    );
    assert_eq!(
        log_of(&mut s, 1, 2, "[ChatRequest]::x"),
        ["Server received chat request from 1 to x"]
    );
    assert!(log_of(&mut s, 1, 2, "[MessageTo]::2::hi").is_empty());
    assert_eq!(
        log_of(&mut s, 2, 2, "[MessageTo]::1::hi"),
        ["Server received chat message from 2 to 1"]
    );
    assert_eq!(
        log_of(&mut s, 1, 2, "[HistoryRequest]::1::2"),
        ["Server received CHAT-HISTORY request from 1 with 2"]
    );
    assert_eq!(
        log_of(&mut s, 1, 2, "[MediaUpload]::cat::AAAA"),
        ["Server received MediaUpload from 1 of the media: cat"]
    );
    assert_eq!(
        log_of(&mut s, 1, 2, "[MediaListRequest]"),
        ["Server received MediaListRequest from 1"]
    );
    assert_eq!(
        log_of(&mut s, 1, 2, "[MediaDownloadRequest]::cat"),
        ["Server received MediaDownloadRequest from 1"]
    );
    assert_eq!(
        log_of(&mut s, 1, 2, "[MediaBroadcast]::cat::AAAA"),
        ["Server received MediaBroadcast from 1 of the media; cat"]
    );
    assert_eq!(
        log_of(&mut s, 1, 9, "[ChatFinish]::2"),
        [
            "Server received ChatFinish from 1 for session: 9",
            "Sent chat history update to server 41"
        ]
    );
    assert_eq!(
        log_of(&mut s, 1, 9, "[ChatFinish]::7"),
        ["Server received ChatFinish from 1 for session: 9"]
    );
    assert_eq!(
        log_of(&mut s, 1, 2, "[Logout]"),
        [
            "\u{1F440}\u{1F440}\u{1F440} Client 1 has been logged out, now the registered clients \
             are: [] \u{1F440}\u{1F440}\u{1F440}"
        ]
    );
}

#[test]
fn servers_log_failures_and_commands() {
    let mut s = small_server();
    let mut out: Vec<Outgoing> = Vec::new();
    assert_eq!(
        s.gui_log("[MediaBroadcast]::cat::0123456789abc").unwrap(),
        "Media stored in server 'cat' is: (40, \"0123456789\u{2026}\")"
    );
    assert_eq!(s.gui_log("[FloodRequired]::Crash::11").unwrap(), "Drone 11 crashed!");
    assert_eq!(s.gui_log("[FloodRequired]::AddSender::1::2"), None);
    assert_eq!(
        s.process_packet(&routing_error(1, vec![11, 40]), &mut out),
        ["Link removed between 11 and 1"]
    );
    assert_eq!(
        s.process_packet(&routing_error(99, vec![11, 40]), &mut out),
        ["Node 99 crashed (removed from graph)"]
    );
}

#[test]
fn clients_log_their_commands() {
    let on = first_client(Some(40));
    let off = first_client(None);
    assert_eq!(off.command_log("[Login]::40").unwrap(), "Login command from client: 3");
    assert_eq!(off.command_log("[Logout]"), None);
    assert_eq!(on.command_log("[Logout]").unwrap(), "Logout command from client: 3");
    assert_eq!(
        on.command_log("[MessageTo]::007::hi").unwrap(),
        "Client 3 sent a message to::7 : hi"
    );
    assert_eq!(
        on.command_log("[ChatRequest]::4").unwrap(),
        "Chat Request::4 command from client: 3"
    );
    assert_eq!(on.command_log("[ChatFinish]::4").unwrap(), "ChatFinish::4 command from client: 3");
    assert_eq!(
        on.command_log("[MediaUpload]::cat::AA").unwrap(),
        "Client 3 uploaded the 'cat' to the server"
    );
    assert_eq!(
        on.command_log("[HistoryRequest]::3::4").unwrap(),
        " Client 3 requested chat history between ::3::4"
    );
    assert_eq!(
        on.command_log("[FloodRequired]::Crash::11").unwrap(),
        "Client 3 received a call to flooding the network"
    );
    assert_eq!(on.command_log("[Nonsense]"), None);
    let nack = Nack { fragment_index: 0, nack_type: NackType::ErrorInRouting(12) };
    let header = SourceRoutingHeader { hop_index: 1, hops: vec![11, 3] };
    assert_eq!(on.nack_log(&nack, &header).unwrap(), "Link removed between 11 and 12");
    let nack = Nack { fragment_index: 0, nack_type: NackType::ErrorInRouting(13) };
    assert_eq!(on.nack_log(&nack, &header).unwrap(), "Node 13 crashed (removed from graph)");
    let nack = Nack { fragment_index: 0, nack_type: NackType::Dropped };
    assert_eq!(on.nack_log(&nack, &header), None);
}

#[test]
fn the_other_clients_log_their_commands() {
    let c = client2::MyClient::new(4, vec![11], None);
    let mut g = ClientGlobals {
        flood_ids: 0,
        session_ids: 0,
        chatting: false,
        peer: 0,
        server: 40,
    };
    assert_eq!(c.command_log(&g, "[Login]::40").unwrap(), "Login from client 4");
    assert_eq!(c.command_log(&g, "[Login]::x"), None);
    assert_eq!(c.command_log(&g, "[Logout]").unwrap(), "Logout from client 4");
    assert_eq!(
        c.command_log(&g, "[ChatRequest]::5").unwrap(),
        "Client 4 is requesting to chat with client: 5"
    );
    assert_eq!(c.command_log(&g, "[ChatFinish]::5"), None);
    g.chatting = true;
    assert_eq!(c.command_log(&g, "[Logout]"), None);
    assert_eq!(c.command_log(&g, "[ChatRequest]::5"), None);
    assert_eq!(
        c.command_log(&g, "[ChatFinish]::5").unwrap(),
        "Client 4 is trying to end current chat"
    );
    assert_eq!(
        c.command_log(&g, "[MediaUpload]::cat::AA").unwrap(),
        "Client 4 is uploading media with name: cat , encoded as: AA"
    );
    assert_eq!(c.command_log(&g, "[MediaListRequest]"), None);
}
