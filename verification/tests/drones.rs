use krusty_club::drone::{
    after_try, DroneAction, DroneCommand, DroneEvent, MyDrone,
};
use krusty_club::packet::{
    Ack, FloodRequest, FloodResponse, Fragment, Nack, NackType, NodeId, NodeType, Outgoing, Packet,
    PacketType, SourceRoutingHeader,
};
use krusty_club::wg_drone::{ChannelCommand, Drone};
use std::collections::VecDeque;

fn create_sample_packet() -> Packet {
    Packet {
        pack_type: PacketType::MsgFragment(Fragment {
            fragment_index: 1,
            total_n_fragments: 1,
            length: 128,
            data: [1; 128],
        }),
        routing_header: SourceRoutingHeader { hop_index: 1, hops: vec![1, 11, 12, 21] },
        session_id: 1,
    }
}

/// Hands packets from drone to drone; gives what reaches the nodes that are no drones, and
/// what the drones report.
fn run(
    drones: &mut Vec<(MyDrone, bool)>,
    to: NodeId,
    packet: Packet,
) -> (Vec<(NodeId, Packet)>, Vec<DroneEvent>) {
    let mut queue: VecDeque<(NodeId, Packet)> = VecDeque::new();
    queue.push_back((to, packet));
    let mut arrived = Vec::new();
    let mut events = Vec::new();
    while let Some((to, packet)) = queue.pop_front() {
        match drones.iter_mut().find(|(d, _)| d.id == to) {
            Some((drone, lossy)) => {
                assert!(drone.can_process(&packet));
                let mut actions: Vec<DroneAction> = Vec::new();
                drone.handle_packet(&packet, *lossy, &mut actions);
                for action in actions {
                    match action {
                        DroneAction::Send(to, p) => queue.push_back((to, p)),
                        DroneAction::Try(to, p) => {
                            queue.push_back((to, p.clone()));
                            match after_try(to, p, true) {
                                DroneAction::Send(to, p) => queue.push_back((to, p)),
                                other => panic!("unexpected action {:?}", other),
                            }
                        }
                        DroneAction::Report(e) => events.push(e),
                    }
                }
            }
            None => arrived.push((to, packet)),
        }
    }
    (arrived, events)
}

fn first_for(arrived: &[(NodeId, Packet)], id: NodeId) -> &Packet {
    &arrived.iter().find(|(to, _)| *to == id).unwrap().1
}

#[test]
fn test_fragment_forward() {
    let mut drones = vec![(MyDrone::new(11, &vec![12]), false)];
    let mut msg = create_sample_packet();
    let (arrived, _) = run(&mut drones, 11, msg.clone());
    msg.routing_header.hop_index = 2;
    assert_eq!(*first_for(&arrived, 12), msg);
}

#[test]
fn test_fragment_drop() {
    let mut drones = vec![(MyDrone::new(11, &vec![12, 1]), true)];
    let (arrived, events) = run(&mut drones, 11, create_sample_packet());
    let nack_packet = Packet {
        pack_type: PacketType::Nack(Nack { fragment_index: 1, nack_type: NackType::Dropped }),
        routing_header: SourceRoutingHeader { hop_index: 1, hops: vec![11, 1] },
        session_id: 1,
    };
    assert_eq!(*first_for(&arrived, 1), nack_packet);
    assert!(matches!(events[0], DroneEvent::PacketDropped(_)));
}

#[test]
fn test_chain_fragment_drop() {
    let mut drones = vec![
        (MyDrone::new(11, &vec![12, 1]), false),
        (MyDrone::new(12, &vec![11, 21]), true),
    ];
    let (arrived, _) = run(&mut drones, 11, create_sample_packet());
    assert_eq!(
        *first_for(&arrived, 1),
        Packet {
            pack_type: PacketType::Nack(Nack { fragment_index: 1, nack_type: NackType::Dropped }),
            routing_header: SourceRoutingHeader { hop_index: 2, hops: vec![12, 11, 1] },
            session_id: 1,
        }
    );
}

#[test]
fn test_chain_fragment_ack() {
    let mut drones = vec![
        (MyDrone::new(11, &vec![12, 1]), false),
        (MyDrone::new(12, &vec![11, 21]), false),
    ];
    let mut msg = create_sample_packet();
    let (arrived, events) = run(&mut drones, 11, msg.clone());
    msg.routing_header.hop_index = 3;
    assert_eq!(*first_for(&arrived, 21), msg);
    assert_eq!(events.len(), 2);
    assert!(matches!(events[1], DroneEvent::PacketSent(_)));
}

#[test]
fn drones_refuse_packets_that_went_astray() {
    let mut drone = MyDrone::new(11, &vec![1]);
    let mut actions: Vec<DroneAction> = Vec::new();
    drone.handle_packet(&create_sample_packet(), false, &mut actions);
    let back = |nack_type: NackType| {
        DroneAction::Try(
            1,
            Packet {
                pack_type: PacketType::Nack(Nack { fragment_index: 1, nack_type }),
                routing_header: SourceRoutingHeader { hop_index: 1, hops: vec![11, 1] },
                session_id: 1,
            },
        )
    };
    assert_eq!(actions, vec![back(NackType::ErrorInRouting(12))]);

    let mut last = create_sample_packet();
    last.routing_header.hops = vec![1, 11];
    actions.clear();
    drone.handle_packet(&last, false, &mut actions);
    assert_eq!(actions, vec![back(NackType::DestinationIsDrone)]);

    let mut wrong = create_sample_packet();
    wrong.routing_header.hops = vec![1, 99, 12];
    actions.clear();
    drone.handle_packet(&wrong, false, &mut actions);
    assert_eq!(actions, vec![back(NackType::UnexpectedRecipient(11))]);
}

#[test]
fn packets_that_no_channel_takes_go_through_the_controller() {
    let p = create_sample_packet();
    assert_eq!(
        after_try(1, p.clone(), false),
        DroneAction::Report(DroneEvent::ControllerShortcut(p))
    );
}

#[test]
fn drones_spread_a_flood_once() {
    let mut drone = MyDrone::new(11, &vec![1, 12]);
    let request = Packet {
        pack_type: PacketType::FloodRequest(FloodRequest {
            flood_id: 1234,
            initiator_id: 1,
            path_trace: vec![(1, NodeType::Client)],
        }),
        routing_header: SourceRoutingHeader { hop_index: 1, hops: vec![1, 11, 12, 13] },
        session_id: 42,
    };
    let mut actions: Vec<DroneAction> = Vec::new();
    drone.handle_packet(&request, false, &mut actions);
    let forwarded: Vec<&Packet> = actions
        .iter()
        .filter_map(|a| match a {
            DroneAction::Send(12, p) => Some(p),
            _ => None,
        })
        .collect();
    assert_eq!(forwarded.len(), 1);
    match &forwarded[0].pack_type {
        PacketType::FloodRequest(r) => {
            assert_eq!(r.flood_id, 1234);
            assert!(r.path_trace.contains(&(11, NodeType::Drone)));
        }
        other => panic!("unexpected packet {:?}", other),
    }
    let response = Packet {
        pack_type: PacketType::FloodResponse(FloodResponse {
            flood_id: 1234,
            path_trace: vec![(11, NodeType::Drone), (1, NodeType::Client)],
        }),
        routing_header: SourceRoutingHeader { hop_index: 1, hops: vec![11, 1] },
        session_id: 0,
    };
    assert_eq!(actions[0], DroneAction::Send(1, response.clone()));

    actions.clear();
    drone.handle_packet(&request, false, &mut actions);
    assert_eq!(
        actions,
        vec![DroneAction::Send(1, response.clone()), DroneAction::Send(1, response)]
    );
}

#[test]
fn a_crashing_drone_hands_on_what_waits() {
    let mut drone = MyDrone::new(2, &vec![1, 3]);
    let fragment = Packet {
        pack_type: PacketType::MsgFragment(Fragment {
            fragment_index: 0,
            total_n_fragments: 1,
            length: 128,
            data: [0; 128],
        }),
        routing_header: SourceRoutingHeader { hop_index: 0, hops: vec![1, 2, 3] },
        session_id: 1,
    };
    let ack = Packet {
        pack_type: PacketType::Ack(Ack { fragment_index: 0 }),
        routing_header: SourceRoutingHeader { hop_index: 1, hops: vec![3, 2, 1] },
        session_id: 1,
    };
    let response = Packet {
        pack_type: PacketType::FloodResponse(FloodResponse {
            flood_id: 1001,
            path_trace: vec![(3, NodeType::Drone), (2, NodeType::Drone)],
        }),
        routing_header: SourceRoutingHeader { hop_index: 1, hops: vec![2, 1] },
        session_id: 1,
    };
    let mut actions: Vec<DroneAction> = Vec::new();
    for p in [&fragment, &ack, &response] {
        drone.process_crash(p, &mut actions);
    }
    let sent: Vec<&Packet> = actions
        .iter()
        .filter_map(|a| match a {
            DroneAction::Report(DroneEvent::PacketSent(p)) => Some(p),
            _ => None,
        })
        .collect();
    assert!(sent.iter().any(|p| matches!(
        p.pack_type,
        PacketType::Nack(Nack { nack_type: NackType::ErrorInRouting(2), .. })
    )));
    assert!(sent.iter().any(|p| matches!(p.pack_type, PacketType::Ack(_))));
    assert!(sent.iter().any(|p| matches!(p.pack_type, PacketType::FloodResponse(_))));

    assert!(drone.handle_command(DroneCommand::RemoveSender(3)));
    assert_eq!(drone.packet_send, vec![1]);
    assert!(drone.handle_command(DroneCommand::AddSender(4)));
    assert_eq!(drone.packet_send, vec![1, 4]);
    assert!(!drone.handle_command(DroneCommand::Crash));
    assert!(drone.packet_send.is_empty());
    actions.clear();
    drone.handle_packet(&ack, false, &mut actions);
    assert!(actions.is_empty());
}

#[test]
fn test_drone_packet_forwarding_and_dropping() {
    let mut drone = Drone::new(1);
    assert!(drone.handle_command(ChannelCommand::AddChannel(2)));
    let packet = Packet {
        pack_type: PacketType::MsgFragment(Fragment {
            fragment_index: 0,
            total_n_fragments: 1,
            length: 80,
            data: [0; 128],
        }),
        routing_header: SourceRoutingHeader { hop_index: 0, hops: vec![1, 2] },
        session_id: 1234,
    };
    let mut out: Vec<Outgoing> = Vec::new();
    assert!(drone.can_process(&packet, false));
    drone.handle_packet(&packet, false, &mut out);
    assert_eq!(out.len(), 1);
    assert_eq!(out[0].to, 2);
    assert_eq!(out[0].packet.session_id, 1234);
    assert_eq!(out[0].packet.routing_header.hop_index, 1);
    assert_eq!(out[0].packet.routing_header.hops, vec![1, 2]);

    let mut lossy = Drone::new(1);
    lossy.handle_command(ChannelCommand::AddChannel(3));
    assert!(lossy.can_process(&packet, true));
    out.clear();
    lossy.handle_packet(&packet, true, &mut out);
    assert!(out.is_empty());
    let mut moved = packet.clone();
    moved.routing_header = SourceRoutingHeader { hop_index: 1, hops: vec![3, 1, 2] };
    out.clear();
    lossy.handle_packet(&moved, true, &mut out);
    assert_eq!(out.len(), 1);
    assert_eq!(
        out[0].packet.pack_type,
        PacketType::Nack(Nack { fragment_index: 1234, nack_type: NackType::Dropped })
    );
    assert_eq!(out[0].packet.session_id, 1235);
    assert!(!lossy.handle_command(ChannelCommand::Crash));
}

#[test]
fn test_flood_request_and_response_handling() {
    let mut drone = Drone::new(1);
    drone.handle_command(ChannelCommand::AddChannel(2));
    let flood_request = FloodRequest {
        flood_id: 12345,
        initiator_id: 0,
        path_trace: vec![(0, NodeType::Server)],
    };
    let packet = Packet {
        pack_type: PacketType::FloodRequest(flood_request.clone()),
        routing_header: SourceRoutingHeader { hop_index: 0, hops: vec![] },
        session_id: 0,
    };
    let mut out: Vec<Outgoing> = Vec::new();
    drone.handle_packet(&packet, false, &mut out);
    assert_eq!(out.len(), 1);
    assert_eq!(out[0].packet.pack_type, PacketType::FloodRequest(flood_request.clone()));

    out.clear();
    drone.send_flood_response(&flood_request, &mut out);
    assert_eq!(out[0].to, 2);
    assert_eq!(
        out[0].packet.pack_type,
        PacketType::FloodResponse(FloodResponse {
            flood_id: 12345,
            path_trace: vec![(0, NodeType::Server), (1, NodeType::Drone)],
        })
    );
}
