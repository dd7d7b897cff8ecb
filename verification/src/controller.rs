//! A plain controller that keeps track of nodes and of channels to drones.
use crate::client1::with_neighbour;
use crate::drone::DroneEvent;
use crate::packet::{
    has_id, lemma_without_id, remove_id, without_id, NodeId, NodeType, Packet,
};
use vstd::prelude::*;

verus! {

#[verifier::ext_equal]
pub struct PlainControllerView {
    pub nodes: Seq<NodeId>,
    pub channels: Seq<NodeId>,
}

/// A controller that knows the nodes that were spawned and the drones that it has
/// channels to.
#[derive(Debug)]
pub struct SimulationControllerImpl {
    pub nodes: Vec<NodeId>,
    pub drone_channels: Vec<NodeId>,
}

impl View for SimulationControllerImpl {
    type V = PlainControllerView;

    open spec fn view(&self) -> PlainControllerView {
        PlainControllerView { nodes: self.nodes@, channels: self.drone_channels@ }
    }
}

/// The drone that a packet goes to by way of the controller: its first hop, where there
/// is a channel to it.
pub open spec fn returned_to(v: PlainControllerView, e: DroneEvent) -> Option<NodeId> {
    match e {
        DroneEvent::ControllerShortcut(p) => {
            let hops = p@.header.hops;
            if hops.len() > 0 && v.channels.contains(hops[0]) {
                Some(hops[0])
            } else {
                None
            }
        },
        _ => None,
    }
}

impl SimulationControllerImpl {
    /// A controller that knows no node.
    pub fn new() -> (r: Self)
        ensures
            r@ == (PlainControllerView { nodes: Seq::empty(), channels: Seq::empty() }),
    {
        SimulationControllerImpl { nodes: Vec::new(), drone_channels: Vec::new() }
    }

    /// Adds a channel to a drone.
    pub fn add_channel(&mut self, node_id: NodeId)
        ensures
            final(self)@ == (PlainControllerView {
                channels: with_neighbour(old(self)@.channels, node_id),
                ..old(self)@
            }),
    {
        if !has_id(&self.drone_channels, node_id) {
            self.drone_channels.push(node_id);
        }
        assert(self@ =~= PlainControllerView {
            channels: with_neighbour(old(self)@.channels, node_id),
            ..old(self)@
        });
    }

    /// Forgets a node that has crashed.
    pub fn crash(&mut self, crashed: NodeId)
        ensures
            final(self)@ == (PlainControllerView {
                nodes: without_id(old(self)@.nodes, crashed),
                channels: without_id(old(self)@.channels, crashed),
            }),
    {
        self.nodes = remove_id(&self.nodes, crashed);
        self.drone_channels = remove_id(&self.drone_channels, crashed);
    }

    /// Adds a node, whatever its role.
    pub fn spawn_node(&mut self, node_id: NodeId, node_type: NodeType)
        ensures
            final(self)@ == (PlainControllerView {
                nodes: old(self)@.nodes.push(node_id),
                ..old(self)@
            }),
    {
        self.nodes.push(node_id);
    }

    /// The drone that an event sends a packet to.
    pub fn handle_node_event(&self, event: &DroneEvent) -> (r: Option<NodeId>)
        ensures
            r == returned_to(self@, *event),
    {
        match event {
            DroneEvent::ControllerShortcut(packet) => {
                if packet.routing_header.hops.len() > 0 && has_id(
                    &self.drone_channels,
                    packet.routing_header.hops[0],
                ) {
                    Some(packet.routing_header.hops[0])
                } else {
                    None
                }
            },
            _ => None,
        }
    }
}

/// A packet that takes the way by the controller goes to its first hop, where there is a
/// channel to it; other events send nothing.
pub proof fn law_returned_packets_go_to_their_first_hop(
    v: PlainControllerView,
    p: Packet,
    to: NodeId,
)
    ensures
        returned_to(v, DroneEvent::ControllerShortcut(p)) == Some(to) <==> p@.header.hops.len() > 0
            && p@.header.hops[0] == to && v.channels.contains(to),
        returned_to(v, DroneEvent::PacketSent(p)) is None,
        returned_to(v, DroneEvent::PacketDropped(p)) is None,
{
}

/// A node that was spawned and has crashed is unknown.
pub proof fn law_a_crashed_node_is_forgotten(v: PlainControllerView, id: NodeId)
    ensures
        !without_id(v.nodes.push(id), id).contains(id),
        !without_id(v.channels, id).contains(id),
{
    lemma_without_id(v.nodes.push(id), id);
    lemma_without_id(v.channels, id);
}

}
